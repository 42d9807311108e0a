//! What each operation makes of the state, field by field.

use crate::contexts::{ActiveContext, Assignment, ContextTab, QueuedContextReport};
use crate::laws::lemma_selectable;
use crate::model::{ContextModel, ReportText, Selection, TabText};
use crate::name_set::{in_order, lemma_names_in_order, name_order};
use crate::preferences::{ClientContextPreferences, ClientContextSelection};
use crate::preferences::{ClientWorkspaceContext, SavedSelection};
use crate::protocol::{ClientEndpointId, ClientShellSnapshot, ClientShellWorkspace};
use crate::protocol::{EndpointText, WorkspaceText};
use crate::tab_row::TabCell;
use crate::table::KeyText;
use crate::text::{normalized, precedes, Text};
use vstd::prelude::*;

verus! {

/// A name that a context can be given: no built-in tab is labelled with it.
pub open spec fn free(state: ContextModel, name: Text) -> bool {
    name != state.default_name && name != "all"@ && name != "+"@
}

/// Nothing but the active tab and the known contexts may differ.
pub open spec fn same_but_tabs(state: ContextModel, after: ContextModel) -> bool {
    &&& after.token_key == state.token_key
    &&& after.default_name == state.default_name
    &&& after.pending == state.pending
    &&& after.assignments == state.assignments
    &&& after.queued_reports == state.queued_reports
}

// ---- starting ----
/// A client without preferences starts on the default tab and knows nothing.
pub proof fn law_starting_empty(token_key: Option<Text>, default_name: Text)
    ensures
        ({
            let state = ContextModel::restored(token_key, default_name, None);
            &&& state.token_key == token_key && state.default_name == default_name
            &&& state.active == Selection::Default
            &&& forall|name: Text| !state.known.contains(name)
            &&& forall|key: KeyText| !state.pending.contains_key(key)
            &&& forall|key: KeyText| !state.assignments.contains_key(key)
            &&& state.queued_reports.len() == 0
        }),
{
}

// ---- tabs ----
/// Selecting a tab makes it active. A name that no built-in tab is labelled with can be selected
/// from any tab, and is known from then on. A built-in label cannot, and changes nothing.
pub proof fn law_selecting(state: ContextModel, selection: Selection)
    ensures
        ({
            let after = state.select(selection);
            &&& same_but_tabs(state, after)
            &&& match selection {
                Selection::Named(name) => if free(state, name) {
                    after.active == selection && after.known == state.known.insert(name)
                } else {
                    after == state
                },
                _ => after.active == selection && after.known == state.known,
            }
        }),
{
}

/// The tab row starts with the tab for a new context and the default one, and ends with the one for
/// everything. Between them the known contexts stand in alphabetical order, each once.
pub proof fn law_tabs_in_order(state: ContextModel)
    requires
        state.valid(),
    ensures
        ({
            let tabs = state.tabs();
            &&& tabs.len() >= 3
            &&& tabs[0] == TabText::New
            &&& tabs[1] == TabText::Default
            &&& tabs.last() == TabText::All
            &&& forall|i: int|
                2 <= i < tabs.len() - 1 ==> ((#[trigger] tabs[i]) matches TabText::Named(name)
                    && state.known.contains(name))
            &&& forall|i: int, j: int|
                2 <= i < j < tabs.len() - 1 ==> precedes(
                    (#[trigger] tabs[i])->Named_0,
                    (#[trigger] tabs[j])->Named_0,
                )
            &&& forall|name: Text|
                state.known.contains(name) ==> #[trigger] tabs.contains(TabText::Named(name))
        }),
{
    let tabs = state.tabs();
    let names = in_order(state.known);
    lemma_names_in_order(state.known);
    assert forall|i: int| 2 <= i < tabs.len() - 1 implies ((#[trigger] tabs[i]) matches TabText::Named(
        name,
    ) && state.known.contains(name)) by {
        assert(tabs[i] == TabText::Named(names[i - 2]));
        assert(names.to_set().contains(names[i - 2]));
    }
    assert forall|i: int, j: int| 2 <= i < j < tabs.len() - 1 implies precedes(
        (#[trigger] tabs[i])->Named_0,
        (#[trigger] tabs[j])->Named_0,
    ) by {
        let lt = name_order();
        assert(lt(names[i - 2], names[j - 2]));
    }
    assert forall|name: Text| state.known.contains(name) implies #[trigger] tabs.contains(
        TabText::Named(name),
    ) by {
        crate::laws::law_known_contexts_have_tabs(state, name);
    }
}

/// Each tab is labelled with its context, or with the label of its own, and selects what it is
/// labelled with.
pub proof fn law_labels(default_name: Text, name: Text)
    ensures
        TabText::New.label(default_name) == "+"@,
        TabText::Default.label(default_name) == default_name,
        TabText::Named(name).label(default_name) == name,
        TabText::All.label(default_name) == "all"@,
        TabText::New.selects() is None && TabText::New.named() is None,
        TabText::Default.selects() == Some(Selection::Default) && TabText::Default.named() is None,
        TabText::Named(name).selects() == Some(Selection::Named(name)),
        TabText::Named(name).named() == Some(name),
        TabText::All.selects() == Some(Selection::All) && TabText::All.named() is None,
        Selection::Named(name).named() == Some(name),
        Selection::Default.named() is None && Selection::All.named() is None,
{
}

/// Cycling selects the tab that lies `delta` places from the active one, counted round all tabs but
/// the one for a new context. A tab with a built-in label cannot be selected, and changes nothing.
pub proof fn law_cycling(state: ContextModel, delta: int, from: int, to: int)
    requires
        state.valid(),
        1 <= from < state.tabs().len(),
        1 <= to < state.tabs().len(),
        state.tabs()[from].selects() == Some(state.active),
        (to - from - delta) % (state.tabs().len() - 1) == 0,
    ensures
        ({
            let after = state.cycle(delta);
            let tab = state.tabs()[to];
            if tab matches TabText::Named(name) && !free(state, name) {
                after == state
            } else {
                &&& same_but_tabs(state, after)
                &&& after.known == state.known
                &&& tab.selects() == Some(after.active)
            }
        }),
{
    lemma_selectable(state);
    crate::laws::law_every_other_tab_selects(state);
    let all = state.selectable();
    let count = all.len() as int;
    assert(state.tabs()[from].selects() == Some(all[from - 1]));
    assert(state.tabs()[to].selects() == Some(all[to - 1]));
    let place = all.index_of(state.active);
    assert(all.contains(state.active));
    assert(place == from - 1);
    let step = state.step(delta);
    vstd::arithmetic::div_mod::lemma_mod_bound(place + delta, count);
    vstd::arithmetic::div_mod::lemma_small_mod((to - 1) as nat, count as nat);
    vstd::arithmetic::div_mod::lemma_mod_equivalence(to - 1, place + delta, count);
    assert(step == to - 1);
    let target = all[to - 1];
    assert(all.contains(target));
    if let Selection::Named(name) = target {
        assert(state.known.contains(name));
        assert(state.known.insert(name) =~= state.known);
    }
}

// ---- names ----
/// A name becomes known in its kept form, if it has one that no built-in tab is labelled with.
/// Otherwise nothing changes.
pub proof fn law_adding(state: ContextModel, raw: Text, name: Text)
    ensures
        state.admitted(raw) == Some(name) <==> normalized(raw) == Some(name) && free(state, name),
        normalized(raw) == Some(name) && free(state, name) ==> {
            let after = state.add_known(raw);
            &&& same_but_tabs(state, after)
            &&& after.active == state.active
            &&& after.known == state.known.insert(name)
        },
        normalized(raw) is None || (normalized(raw) == Some(name) && !free(state, name)) ==> {
            &&& state.add_known(raw) == state
            &&& state.admitted(raw) is None
        },
{
}

/// Removing a context changes nothing but what names it.
pub proof fn law_removing(state: ContextModel, name: Text, key: KeyText)
    ensures
        ({
            let after = state.remove_known(name);
            &&& after.token_key == state.token_key
            &&& after.default_name == state.default_name
            &&& after.queued_reports == state.queued_reports
            &&& after.known == state.known.remove(name)
            &&& after.active == if state.active == Selection::Named(name) {
                Selection::Default
            } else {
                state.active
            }
            &&& after.pending.contains_key(key) <==> state.pending.contains_key(key)
            &&& state.pending.contains_key(key) ==> after.pending[key] == if state.pending[key]
                == Some(name) {
                None
            } else {
                state.pending[key]
            }
            &&& after.assignments.contains_key(key) <==> state.assignments.contains_key(key)
                && state.assignments[key].context != name
            &&& after.assignments.contains_key(key) ==> after.assignments[key]
                == state.assignments[key]
        }),
{
}

/// A known context can be renamed, whatever tab is active, to every name whose kept form is another
/// one and no built-in label. The new name then stands wherever the old one did, and nothing else
/// changes. Otherwise nothing changes at all.
pub proof fn law_renaming(
    state: ContextModel,
    old_name: Text,
    raw: Text,
    name: Text,
    key: KeyText,
)
    ensures
        state.renamed_to(old_name, raw) == Some(name) <==> state.known.contains(old_name)
            && normalized(raw) == Some(name) && name != old_name && free(state, name),
        state.known.contains(old_name) && normalized(raw) == Some(name) && name != old_name && free(
            state,
            name,
        ) ==> {
            let after = state.rename_known(old_name, raw);
            &&& after.token_key == state.token_key
            &&& after.default_name == state.default_name
            &&& after.queued_reports == state.queued_reports
            &&& after.known == state.known.remove(old_name).insert(name)
            &&& after.active == if state.active == Selection::Named(old_name) {
                Selection::Named(name)
            } else {
                state.active
            }
            &&& after.pending.contains_key(key) <==> state.pending.contains_key(key)
            &&& state.pending.contains_key(key) ==> after.pending[key] == if state.pending[key]
                == Some(old_name) {
                Some(name)
            } else {
                state.pending[key]
            }
            &&& after.assignments.contains_key(key) <==> state.assignments.contains_key(key)
            &&& state.assignments.contains_key(key) ==> {
                &&& after.assignments[key].boot_id == state.assignments[key].boot_id
                &&& after.assignments[key].context == if state.assignments[key].context
                    == old_name {
                    name
                } else {
                    state.assignments[key].context
                }
            }
        },
        !state.known.contains(old_name) || normalized(raw) is None || normalized(raw) == Some(
            old_name,
        ) || (normalized(raw) == Some(name) && !free(state, name)) ==> {
            &&& state.rename_known(old_name, raw) == state
            &&& state.renamed_to(old_name, raw) is None
        },
{
}

// ---- workspaces ----
/// The first token with the configured name puts a workspace in its context, wherever it stands
/// among the tokens. The default name is no context.
pub proof fn law_first_token_counts(
    state: ContextModel,
    workspace: WorkspaceText,
    key: Text,
    i: int,
)
    requires
        state.token_key == Some(key),
        0 <= i < workspace.tokens.len(),
        workspace.tokens[i].0 == key,
        forall|j: int| 0 <= j < i ==> (#[trigger] workspace.tokens[j]).0 != key,
    ensures
        state.token_value(workspace) == if workspace.tokens[i].1 == state.default_name {
            None
        } else {
            Some(workspace.tokens[i].1)
        },
{
    lemma_first_value(workspace.tokens, key, i);
}

/// The value of the first token with a name.
proof fn lemma_first_value(tokens: Seq<(Text, Text)>, key: Text, i: int)
    requires
        0 <= i < tokens.len(),
        tokens[i].0 == key,
        forall|j: int| 0 <= j < i ==> (#[trigger] tokens[j]).0 != key,
    ensures
        crate::model::first_value(tokens, key) == Some(tokens[i].1),
    decreases tokens.len(),
{
    if i > 0 {
        let rest = tokens.drop_first();
        assert(tokens[0].0 != key);
        assert forall|j: int| 0 <= j < i - 1 implies (#[trigger] rest[j]).0 != key by {
            assert(tokens[j + 1].0 != key);
        }
        lemma_first_value(rest, key, i - 1);
    }
}

/// Without a configured token, or without a token of that name, a workspace is in no context.
pub proof fn law_no_token_no_context(state: ContextModel, workspace: WorkspaceText)
    requires
        state.token_key matches Some(key) ==> forall|j: int|
            0 <= j < workspace.tokens.len() ==> (#[trigger] workspace.tokens[j]).0 != key,
    ensures
        state.token_value(workspace) is None,
{
    if let Some(key) = state.token_key {
        lemma_no_value(workspace.tokens, key);
    }
}

/// There is no value without a token of that name.
proof fn lemma_no_value(tokens: Seq<(Text, Text)>, key: Text)
    requires
        forall|j: int| 0 <= j < tokens.len() ==> (#[trigger] tokens[j]).0 != key,
    ensures
        crate::model::first_value(tokens, key) is None,
    decreases tokens.len(),
{
    if tokens.len() > 0 {
        let rest = tokens.drop_first();
        assert forall|j: int| 0 <= j < rest.len() implies (#[trigger] rest[j]).0 != key by {
            assert(tokens[j + 1].0 != key);
        }
        lemma_no_value(rest, key);
    }
}

/// A workspace is in the context that it is on its way to, and otherwise in that of its token. The
/// tab for everything shows it, the default tab if it is in no context, and the tab of a context if
/// it is in that one. Without a configured token every tab shows it.
pub proof fn law_where_a_workspace_is_shown(
    state: ContextModel,
    endpoint: EndpointText,
    workspace: WorkspaceText,
)
    ensures
        ({
            let key = (endpoint.storage_key(), workspace.workspace_id);
            let context = state.workspace_context(endpoint, workspace);
            let visible = state.workspace_visible(endpoint, workspace);
            &&& context == if state.pending.contains_key(key) {
                state.pending[key]
            } else {
                state.token_value(workspace)
            }
            &&& state.enabled() <==> state.token_key is Some
            &&& state.token_key is None ==> visible
            &&& state.active is All ==> visible
            &&& state.token_key is Some && state.active is Default ==> (visible <==> context
                is None)
            &&& forall|name: Text|
                state.token_key is Some && state.active == Selection::Named(name) ==> (visible
                    <==> context == Some(name))
        }),
{
}

/// An id is visible if the first workspace with it is. An id that no workspace has is not.
pub proof fn law_first_id_counts(
    state: ContextModel,
    endpoint: EndpointText,
    workspaces: Seq<WorkspaceText>,
    workspace_id: Text,
    i: int,
)
    requires
        0 <= i <= workspaces.len(),
        i < workspaces.len() ==> workspaces[i].workspace_id == workspace_id,
        forall|j: int| 0 <= j < i ==> (#[trigger] workspaces[j]).workspace_id != workspace_id,
    ensures
        state.workspace_id_visible(endpoint, workspaces, workspace_id) <==> i < workspaces.len()
            && state.workspace_visible(endpoint, workspaces[i]),
    decreases workspaces.len(),
{
    if workspaces.len() > 0 && i > 0 {
        let rest = workspaces.drop_first();
        assert(workspaces[0].workspace_id != workspace_id);
        assert forall|j: int| 0 <= j < i - 1 implies (#[trigger] rest[j]).workspace_id
            != workspace_id by {
            assert(workspaces[j + 1].workspace_id != workspace_id);
        }
        law_first_id_counts(state, endpoint, rest, workspace_id, i - 1);
    }
}

/// The workspaces in a context are listed by their ids, one after the other: a workspace in the
/// context adds its id at the end, and another one adds nothing.
pub proof fn law_listing_a_context(
    state: ContextModel,
    endpoint: EndpointText,
    workspaces: Seq<WorkspaceText>,
    workspace: WorkspaceText,
    name: Text,
)
    ensures
        state.workspaces_in_context(endpoint, Seq::empty(), name).len() == 0,
        state.workspaces_in_context(endpoint, workspaces.push(workspace), name)
            == if state.workspace_context(endpoint, workspace) == Some(name) {
            state.workspaces_in_context(endpoint, workspaces, name).push(workspace.workspace_id)
        } else {
            state.workspaces_in_context(endpoint, workspaces, name)
        },
{
    reveal(Seq::filter);
    let test = |workspace: WorkspaceText|
        state.workspace_context(endpoint, workspace) == Some(name);
    let id = |workspace: WorkspaceText| workspace.workspace_id;
    let all = workspaces.push(workspace);
    assert(all.drop_last() =~= workspaces);
    if test(workspace) {
        assert(workspaces.filter(test).push(workspace).map_values(id) =~= workspaces.filter(
            test,
        ).map_values(id).push(workspace.workspace_id));
    }
}

/// A move is kept under its workspace until it is cleared. The context that it leads into is known,
/// unless it is the default name or the label for everything. Nothing else changes.
pub proof fn law_moving(state: ContextModel, key: KeyText, context: Option<Text>)
    ensures
        ({
            let after = state.set_pending(key, context);
            &&& after == (ContextModel { pending: after.pending, known: after.known, ..state })
            &&& after.pending == state.pending.insert(key, context)
            &&& after.known == match context {
                Some(name) => if name == state.default_name || name == "all"@ {
                    state.known
                } else {
                    state.known.insert(name)
                },
                None => state.known,
            }
        }),
        state.clear_pending(key) == (ContextModel { pending: state.pending.remove(key), ..state }),
{
}

// ---- reports ----
/// Reports are handed out in the order in which they were queued: the last one queued is the last
/// one handed out to its endpoint, and stays the last one for the others.
pub proof fn law_reports_in_order(
    state: ContextModel,
    report: ReportText,
    endpoint: EndpointText,
)
    ensures
        ({
            let more = ContextModel {
                queued_reports: state.queued_reports.push(report),
                ..state
            };
            let rest = state.without_reports_for(endpoint);
            &&& state.queued_reports.len() == 0 ==> state.reports_for(endpoint).len() == 0
                && rest.queued_reports.len() == 0
            &&& rest == (ContextModel { queued_reports: rest.queued_reports, ..state })
            &&& report.endpoint == endpoint ==> {
                &&& more.reports_for(endpoint) == state.reports_for(endpoint).push(report)
                &&& more.without_reports_for(endpoint) == rest
            }
            &&& report.endpoint != endpoint ==> {
                &&& more.reports_for(endpoint) == state.reports_for(endpoint)
                &&& more.without_reports_for(endpoint).queued_reports == rest.queued_reports.push(
                    report,
                )
            }
        }),
{
    reveal(Seq::filter);
    let all = state.queued_reports.push(report);
    assert(all.drop_last() =~= state.queued_reports);
}

// ---- values ----
/// What an endpoint shows is taken as it is: each workspace in its place, with its id and each of
/// its tokens.
pub proof fn law_snapshots_hold_everything(
    endpoint: ClientEndpointId,
    snapshot: ClientShellSnapshot,
    workspace: ClientShellWorkspace,
)
    ensures
        endpoint.deep_view() == match endpoint {
            ClientEndpointId::Local => EndpointText::Local,
            ClientEndpointId::Ssh(profile) => EndpointText::Ssh(profile.id@),
        },
        snapshot.deep_view().boot_id == snapshot.boot_id@,
        snapshot.deep_view().workspaces.len() == snapshot.workspaces@.len(),
        forall|i: int|
            0 <= i < snapshot.workspaces@.len() ==> #[trigger] snapshot.deep_view().workspaces[i]
                == snapshot.workspaces@[i].deep_view(),
        workspace.deep_view().workspace_id == workspace.workspace_id@,
        workspace.deep_view().tokens.len() == workspace.tokens@.len(),
        forall|i: int|
            0 <= i < workspace.tokens@.len() ==> (#[trigger] workspace.deep_view().tokens[i]) == (
                workspace.tokens@[i].0@,
                workspace.tokens@[i].1@,
            ),
{
}

/// Preferences are taken as they are: the tab, each name, and each backup in its place.
pub proof fn law_preferences_hold_everything(
    saved: ClientContextPreferences,
    selection: ClientContextSelection,
    backup: ClientWorkspaceContext,
)
    ensures
        saved.deep_view().active == match saved.active {
            Some(active) => Some(active.deep_view()),
            None => None,
        },
        saved.deep_view().known.len() == saved.known@.len(),
        forall|i: int|
            0 <= i < saved.known@.len() ==> #[trigger] saved.deep_view().known[i]
                == saved.known@[i]@,
        saved.deep_view().workspaces.len() == saved.workspaces@.len(),
        forall|i: int|
            0 <= i < saved.workspaces@.len() ==> #[trigger] saved.deep_view().workspaces[i]
                == saved.workspaces@[i].deep_view(),
        selection.deep_view() == match selection {
            ClientContextSelection::Default => SavedSelection::Default,
            ClientContextSelection::All => SavedSelection::All,
            ClientContextSelection::Named { name } => SavedSelection::Named(name@),
        },
        backup.deep_view().endpoint == backup.endpoint@,
        backup.deep_view().boot_id == backup.boot_id@,
        backup.deep_view().workspace_id == backup.workspace_id@,
        backup.deep_view().context == backup.context@,
{
}

/// Tabs, selections, reports, backups and cells hold what their fields hold.
pub proof fn law_values_hold_their_fields(
    active: ActiveContext,
    tab: ContextTab,
    report: QueuedContextReport,
    assignment: Assignment,
    cell: TabCell,
)
    ensures
        active.deep_view() == match active {
            ActiveContext::Default => Selection::Default,
            ActiveContext::Named(name) => Selection::Named(name@),
            ActiveContext::All => Selection::All,
        },
        tab.deep_view() == match tab {
            ContextTab::New => TabText::New,
            ContextTab::Default => TabText::Default,
            ContextTab::Named(name) => TabText::Named(name@),
            ContextTab::All => TabText::All,
        },
        report.deep_view().endpoint == report.endpoint_id.deep_view(),
        report.deep_view().workspace_id == report.workspace_id@,
        report.deep_view().context == match report.context {
            Some(context) => Some(context@),
            None => None,
        },
        assignment.deep_view().context == assignment.context@,
        assignment.deep_view().boot_id == assignment.boot_id@,
        cell.deep_view().tab == match cell.tab {
            Some(tab) => Some(tab as int),
            None => None,
        },
        cell.deep_view().text == cell.text@,
        cell.deep_view().x == cell.x,
{
}

} // verus!
