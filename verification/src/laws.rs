//! Laws of the context state that relate several of its operations.

use crate::model::{workspace_key, ContextModel, ReportText, Selection, TabText};
use crate::name_set::{in_order, lemma_names_in_order};
use crate::protocol::{EndpointText, SnapshotText, WorkspaceText};
use crate::table::KeyText;
use crate::text::{normalized, Text};
use vstd::prelude::*;

verus! {

// ---- tabs ----
/// What can be selected is what the tabs select. Only the first tab, the one for a new context,
/// selects nothing.
pub proof fn law_every_other_tab_selects(state: ContextModel)
    ensures
        state.tabs().len() == state.selectable().len() + 1,
        state.tabs()[0] == TabText::New,
        TabText::New.selects() is None,
        forall|i: int|
            0 <= i < state.selectable().len() ==> state.tabs()[i + 1].selects() == Some(
                #[trigger] state.selectable()[i],
            ),
{
}

/// Each known context has one tab, and so do the default and everything.
pub proof fn lemma_selectable(state: ContextModel)
    requires
        state.known.finite(),
    ensures
        state.selectable().no_duplicates(),
        state.selectable().contains(Selection::Default),
        state.selectable().contains(Selection::All),
        forall|name: Text|
            state.known.contains(name) <==> #[trigger] state.selectable().contains(
                Selection::Named(name),
            ),
{
    let names = in_order(state.known);
    lemma_names_in_order(state.known);
    let all = state.selectable();
    assert(all[0] == Selection::Default);
    assert(all[all.len() - 1] == Selection::All);
    assert forall|i: int| 0 <= i < names.len() implies all[i + 1] == Selection::Named(
        #[trigger] names[i],
    ) by {}
    assert forall|i: int, j: int| 0 <= i < all.len() && 0 <= j < all.len() && i != j implies all[i]
        != all[j] by {
        if 0 < i <= names.len() && 0 < j <= names.len() {
            assert(all[i] == Selection::Named(names[i - 1]));
            assert(all[j] == Selection::Named(names[j - 1]));
        }
    }
    assert forall|name: Text|
        state.known.contains(name) <==> #[trigger] all.contains(Selection::Named(name)) by {
        if state.known.contains(name) {
            assert(names.to_set().contains(name));
            let i = names.index_of(name);
            assert(all[i + 1] == Selection::Named(names[i]));
        }
        if all.contains(Selection::Named(name)) {
            let i = all.index_of(Selection::Named(name));
            assert(names[i - 1] == name);
            assert(names.to_set().contains(name));
        }
    }
}

/// Exactly one tab is the active one.
pub proof fn law_one_tab_is_active(state: ContextModel) -> (active: int)
    requires
        state.valid(),
    ensures
        0 <= active < state.tabs().len(),
        forall|i: int|
            0 <= i < state.tabs().len() ==> (#[trigger] state.tabs()[i].selects() == Some(
                state.active,
            ) <==> i == active),
{
    lemma_selectable(state);
    law_every_other_tab_selects(state);
    let place = state.selectable().index_of(state.active);
    assert(state.selectable().contains(state.active));
    assert forall|i: int| 0 <= i < state.tabs().len() implies (#[trigger] state.tabs()[i].selects()
        == Some(state.active) <==> i == place + 1) by {
        if i > 0 {
            assert(state.tabs()[i].selects() == Some(state.selectable()[i - 1]));
        }
    }
    place + 1
}

/// A context is in the tab row exactly when it is known.
pub proof fn law_known_contexts_have_tabs(state: ContextModel, name: Text)
    requires
        state.known.finite(),
    ensures
        state.tabs().contains(TabText::Named(name)) <==> state.known.contains(name),
{
    lemma_selectable(state);
    let names = in_order(state.known);
    lemma_names_in_order(state.known);
    if state.known.contains(name) {
        assert(names.to_set().contains(name));
        assert(state.tabs()[names.index_of(name) + 2] == TabText::Named(name));
    }
    if state.tabs().contains(TabText::Named(name)) {
        let i = state.tabs().index_of(TabText::Named(name));
        assert(names[i - 2] == name);
        assert(names.to_set().contains(name));
    }
}

/// The label of a built-in tab that shows workspaces does not double as a context: no tab of a
/// context has it.
pub proof fn law_built_in_labels_are_no_contexts(state: ContextModel, name: Text)
    requires
        state.valid(),
        state.built_in(name),
    ensures
        !state.known.contains(name),
        !state.tabs().contains(TabText::Named(name)),
{
    law_known_contexts_have_tabs(state, name);
}

/// Built-in labels are refused, and leave everything as it is.
pub proof fn law_built_in_labels_are_refused(state: ContextModel, name: Text, raw: Text, other: Text)
    requires
        state.reserved(name),
        normalized(raw) == Some(name),
    ensures
        state.select(Selection::Named(name)) == state,
        state.add_known(raw) == state,
        state.rename_known(other, raw) == state,
{
}

// ---- cycling ----
/// Selecting `delta` places further changes the active tab, and nothing else. A tab that cannot be
/// selected leaves it where it is.
proof fn lemma_cycle(state: ContextModel, delta: int)
    requires
        state.valid(),
    ensures
        0 <= state.step(delta) < state.selectable().len(),
        state.cycle(delta) == if state.blocked(delta) {
            state
        } else {
            state.under(state.selectable()[state.step(delta)])
        },
        state.cycle(delta).valid(),
        state.cycle(delta).selectable() == state.selectable(),
        !state.blocked(delta) ==> state.selectable().index_of(state.cycle(delta).active)
            == state.step(delta),
{
    lemma_selectable(state);
    let count = state.selectable().len() as int;
    let place = state.selectable().index_of(state.active) + delta;
    vstd::arithmetic::div_mod::lemma_mod_bound(place, count);
    let target = state.selectable()[state.step(delta)];
    assert(state.selectable().contains(target));
    if let Selection::Named(name) = target {
        assert(state.known.contains(name));
        assert(state.known.insert(name) =~= state.known);
    }
    if !state.blocked(delta) {
        assert(state.cycle(delta) =~= state.under(target));
    }
    assert(state.cycle(delta).known == state.known);
}

/// Cycling goes round the tabs: no step and a whole round change nothing, and one step after
/// another goes as far as both together. Steps forward and as many back return to where they
/// started.
///
/// A known context with a reserved name cannot be selected. A step onto it changes nothing.
pub proof fn law_cycling_goes_round(state: ContextModel, first: int, second: int)
    requires
        state.valid(),
    ensures
        state.cycle(0) == state,
        state.cycle(state.selectable().len() as int) == state,
        !state.blocked(first) && !state.blocked(first + second) ==> state.cycle(first).cycle(second)
            == state.cycle(first + second),
        !state.blocked(first) ==> state.cycle(first).cycle(-first) == state,
        state.blocked(first) ==> state.cycle(first) == state,
{
    lemma_selectable(state);
    let all = state.selectable();
    let count = all.len() as int;
    let place = all.index_of(state.active);
    assert(all.contains(state.active));
    lemma_cycle(state, 0);
    lemma_cycle(state, count);
    lemma_cycle(state, first);
    lemma_cycle(state.cycle(first), second);
    lemma_cycle(state.cycle(first), -first);
    lemma_cycle(state, first + second);
    vstd::arithmetic::div_mod::lemma_small_mod(place as nat, count as nat);
    vstd::arithmetic::div_mod::lemma_mod_add_multiples_vanish(place, count);
    vstd::arithmetic::div_mod::lemma_add_mod_noop_right(second, place + first, count);
    vstd::arithmetic::div_mod::lemma_add_mod_noop_right(-first, place + first, count);
    assert(state.under(state.active) =~= state);
    if !state.blocked(first) {
        assert(state.cycle(first).cycle(-first) =~= state);
        if !state.blocked(first + second) {
            assert(state.cycle(first).cycle(second) =~= state.cycle(first + second));
        }
    }
}

/// Every tab that can be selected is reached by cycling.
pub proof fn law_cycling_reaches_every_tab(state: ContextModel, target: Selection) -> (delta: int)
    requires
        state.valid(),
        state.selectable().contains(target),
        !state.refuses(target),
    ensures
        0 <= delta < state.selectable().len(),
        state.cycle(delta).active == target,
{
    lemma_selectable(state);
    let all = state.selectable();
    let count = all.len() as int;
    let place = all.index_of(state.active);
    let wanted = all.index_of(target);
    assert(all.contains(state.active));
    let delta = if wanted >= place {
        wanted - place
    } else {
        wanted - place + count
    };
    lemma_cycle(state, delta);
    vstd::arithmetic::div_mod::lemma_small_mod(wanted as nat, count as nat);
    vstd::arithmetic::div_mod::lemma_mod_add_multiples_vanish(wanted, count);
    delta
}

// ---- names ----
/// A context that is removed is gone from everywhere: it is neither known nor active, no move goes
/// into it, and no backup names it. Moves into it go to the default, and nothing else changes.
pub proof fn law_removed_contexts_are_gone(state: ContextModel, name: Text)
    ensures
        ({
            let after = state.remove_known(name);
            &&& !after.known.contains(name)
            &&& after.active == if state.active == Selection::Named(name) {
                Selection::Default
            } else {
                state.active
            }
            &&& !after.uses(name)
            &&& after.remove_known(name) == after
            &&& forall|other: Text|
                other != name ==> (#[trigger] after.known.contains(other) <==> state.known.contains(
                    other,
                ))
            &&& forall|key: KeyText|
                #![trigger after.pending.get(key)]
                #![trigger state.pending.get(key)]
                after.pending.get(key) == if state.pending.get(key) == Some(Some(name)) {
                    Some(None)
                } else {
                    state.pending.get(key)
                }
            &&& forall|key: KeyText|
                #![trigger after.assignments.get(key)]
                #![trigger state.assignments.get(key)]
                after.assignments.get(key) == match state.assignments.get(key) {
                    Some(assignment) => if assignment.context == name {
                        None
                    } else {
                        Some(assignment)
                    },
                    None => None,
                }
        }),
{
    let after = state.remove_known(name);
    assert(after.remove_known(name) =~= after);
}

/// A context that becomes known and is removed again leaves no trace, where nothing named it before.
pub proof fn law_adding_can_be_undone(state: ContextModel, raw: Text, name: Text)
    requires
        state.valid(),
        state.admitted(raw) == Some(name),
        !state.known.contains(name),
        !state.uses(name),
    ensures
        state.add_known(raw).remove_known(name) == state,
{
    let added = state.add_known(raw);
    let after = added.remove_known(name);
    assert(after.known =~= state.known);
    assert(after.pending =~= state.pending) by {
        assert forall|key: KeyText| state.pending.contains_key(key) implies after.pending[key]
            == state.pending[key] by {}
    }
    assert(after.assignments =~= state.assignments);
    assert(after =~= state);
}

/// A context that is renamed has its new name everywhere, and its old one nowhere. Nothing changes
/// for other contexts.
pub proof fn law_renaming_reaches_everything(
    state: ContextModel,
    old_name: Text,
    raw: Text,
    name: Text,
)
    requires
        state.renamed_to(old_name, raw) == Some(name),
    ensures
        ({
            let after = state.rename_known(old_name, raw);
            &&& name != old_name
            &&& normalized(name) == Some(name)
            &&& !after.known.contains(old_name) && after.known.contains(name)
            &&& after.active == if state.active == Selection::Named(old_name) {
                Selection::Named(name)
            } else {
                state.active
            }
            &&& !after.uses(old_name)
            &&& after.uses(name) <==> state.uses(old_name) || state.uses(name)
            &&& forall|other: Text|
                other != name && other != old_name ==> (#[trigger] after.known.contains(other)
                    <==> state.known.contains(other))
            &&& forall|other: Text|
                other != name && other != old_name ==> (#[trigger] after.uses(other)
                    <==> state.uses(other))
        }),
{
    crate::text::law_kept_names_are_stable(raw);
    let after = state.rename_known(old_name, raw);
    assert forall|other: Text| other != old_name && state.uses(other) implies after.uses(other) by {
        lemma_renamed_use(state, old_name, name, other);
    }
    assert forall|other: Text| after.uses(other) && other != name implies other != old_name
        && state.uses(other) by {
        lemma_use_before_renaming(state, old_name, name, other);
    }
    if state.uses(old_name) {
        lemma_renamed_use(state, old_name, name, old_name);
    }
    if after.uses(name) {
        lemma_use_before_renaming(state, old_name, name, name);
    }
}

/// What names a context before it is renamed names it afterwards.
proof fn lemma_renamed_use(state: ContextModel, old_name: Text, name: Text, used: Text)
    requires
        state.uses(used),
    ensures
        state.replace_name(old_name, name).uses(
            if used == old_name {
                name
            } else {
                used
            },
        ),
{
    let after = state.replace_name(old_name, name);
    if exists|key: KeyText| #[trigger]
        state.pending.contains_key(key) && state.pending[key] == Some(used) {
        let key = choose|key: KeyText| #[trigger]
            state.pending.contains_key(key) && state.pending[key] == Some(used);
        assert(after.pending.contains_key(key));
    } else {
        let key = choose|key: KeyText| #[trigger]
            state.assignments.contains_key(key) && state.assignments[key].context == used;
        assert(after.assignments.contains_key(key));
    }
}

/// What names a context after a renaming named it, or the renamed one, before.
proof fn lemma_use_before_renaming(state: ContextModel, old_name: Text, name: Text, used: Text)
    requires
        name != old_name,
        state.replace_name(old_name, name).uses(used),
    ensures
        used != old_name,
        state.uses(used) || (used == name && state.uses(old_name)),
{
    let after = state.replace_name(old_name, name);
    if exists|key: KeyText| #[trigger]
        after.pending.contains_key(key) && after.pending[key] == Some(used) {
        let key = choose|key: KeyText| #[trigger]
            after.pending.contains_key(key) && after.pending[key] == Some(used);
        assert(state.pending.contains_key(key));
    } else {
        let key = choose|key: KeyText| #[trigger]
            after.assignments.contains_key(key) && after.assignments[key].context == used;
        assert(state.assignments.contains_key(key));
    }
}

/// Renaming a context back restores everything, where the new name was free and the old one can be
/// given again.
pub proof fn law_renaming_can_be_undone(
    state: ContextModel,
    old_name: Text,
    raw: Text,
    name: Text,
)
    requires
        state.valid(),
        state.renamed_to(old_name, raw) == Some(name),
        state.admitted(old_name) == Some(old_name),
        !state.known.contains(name),
        !state.uses(name),
    ensures
        state.rename_known(old_name, raw).rename_known(name, old_name) == state,
{
    let renamed = state.rename_known(old_name, raw);
    let after = renamed.rename_known(name, old_name);
    assert(after.known =~= state.known);
    assert(after.pending =~= state.pending);
    assert forall|key: KeyText| state.assignments.contains_key(key) implies after.assignments[key]
        == state.assignments[key] by {}
    assert(after.assignments =~= state.assignments);
    assert(after =~= state);
}

// ---- workspaces ----
/// Without a token nothing is hidden and nothing is tracked, whatever the tab.
pub proof fn law_nothing_is_hidden_without_a_token(
    state: ContextModel,
    selection: Selection,
    endpoint: EndpointText,
    workspace: WorkspaceText,
    snapshot: SnapshotText,
)
    requires
        !state.enabled(),
    ensures
        state.under(selection).workspace_visible(endpoint, workspace),
        state.observe_snapshot(endpoint, snapshot) == state,
        !state.snapshot_changes(endpoint, snapshot),
{
}

/// The tabs part the workspaces: each one is shown under everything, and under exactly one other
/// tab, which is the default for a workspace without a context.
pub proof fn law_tabs_part_the_workspaces(
    state: ContextModel,
    endpoint: EndpointText,
    workspace: WorkspaceText,
) -> (own: Selection)
    requires
        state.enabled(),
    ensures
        own !is All,
        state.under(Selection::All).workspace_visible(endpoint, workspace),
        forall|selection: Selection|
            selection !is All ==> (#[trigger] state.under(selection).workspace_visible(
                endpoint,
                workspace,
            ) <==> selection == own),
        own is Default <==> state.workspace_context(endpoint, workspace) is None,
{
    let own = match state.workspace_context(endpoint, workspace) {
        Some(name) => Selection::Named(name),
        None => Selection::Default,
    };
    assert forall|selection: Selection| selection !is All implies (#[trigger] state.under(
        selection,
    ).workspace_visible(endpoint, workspace) <==> selection == own) by {
        assert(state.under(selection).workspace_context(endpoint, workspace)
            == state.workspace_context(endpoint, workspace));
    }
    own
}

/// The default name is no context: a token that holds it counts as none.
pub proof fn law_default_name_is_no_context(state: ContextModel, workspace: WorkspaceText)
    ensures
        state.token_value(workspace) != Some(state.default_name),
{
}

/// The workspaces in a context are those that its tab shows, in the order of the snapshot.
pub proof fn law_context_lists_what_its_tab_shows(
    state: ContextModel,
    endpoint: EndpointText,
    workspaces: Seq<WorkspaceText>,
    name: Text,
)
    requires
        state.enabled(),
    ensures
        state.workspaces_in_context(endpoint, workspaces, name) == workspaces.filter(
            |workspace: WorkspaceText|
                state.under(Selection::Named(name)).workspace_visible(endpoint, workspace),
        ).map_values(|workspace: WorkspaceText| workspace.workspace_id),
{
    let shown = |workspace: WorkspaceText|
        state.under(Selection::Named(name)).workspace_visible(endpoint, workspace);
    let listed = |workspace: WorkspaceText|
        state.workspace_context(endpoint, workspace) == Some(name);
    assert forall|workspace: WorkspaceText| #[trigger] shown(workspace) == listed(workspace) by {
        assert(state.under(Selection::Named(name)).workspace_context(endpoint, workspace)
            == state.workspace_context(endpoint, workspace));
    }
    assert(shown =~= listed);
}

/// Where no id occurs twice, an id is visible exactly when a workspace with it is.
pub proof fn law_ids_are_visible_with_their_workspace(
    state: ContextModel,
    endpoint: EndpointText,
    snapshot: SnapshotText,
    i: int,
)
    requires
        snapshot.distinct(),
        0 <= i < snapshot.workspaces.len(),
    ensures
        state.workspace_id_visible(
            endpoint,
            snapshot.workspaces,
            snapshot.workspaces[i].workspace_id,
        ) == state.workspace_visible(endpoint, snapshot.workspaces[i]),
    decreases i,
{
    if i > 0 {
        let rest = SnapshotText { workspaces: snapshot.workspaces.drop_first(), ..snapshot };
        assert(snapshot.workspaces[0].workspace_id != snapshot.workspaces[i].workspace_id);
        assert(rest.workspaces[i - 1] == snapshot.workspaces[i]);
        assert forall|a: int, b: int| 0 <= a < b < rest.workspaces.len() implies #[trigger]
            rest.workspaces[a].workspace_id != #[trigger] rest.workspaces[b].workspace_id by {
            assert(snapshot.workspaces[a + 1].workspace_id
                != snapshot.workspaces[b + 1].workspace_id);
        }
        law_ids_are_visible_with_their_workspace(state, endpoint, rest, i - 1);
    }
}

/// A pending move decides where its workspace is shown, until it is cleared. Other workspaces stay
/// where they are, on the same endpoint and on others.
pub proof fn law_pending_moves_win(
    state: ContextModel,
    endpoint: EndpointText,
    workspace: WorkspaceText,
    context: Option<Text>,
    other_endpoint: EndpointText,
    other: WorkspaceText,
)
    ensures
        ({
            let key = workspace_key(endpoint, workspace.workspace_id);
            let moved = state.set_pending(key, context);
            let cleared = state.clear_pending(key);
            &&& moved.workspace_context(endpoint, workspace) == context
            &&& cleared.workspace_context(endpoint, workspace) == state.token_value(workspace)
            &&& moved.clear_pending(key).workspace_context(endpoint, workspace)
                == state.token_value(workspace)
            &&& !state.pending.contains_key(key) ==> moved.clear_pending(key).pending
                == state.pending
            &&& endpoint != other_endpoint || workspace.workspace_id != other.workspace_id ==> {
                &&& moved.workspace_context(other_endpoint, other) == state.workspace_context(
                    other_endpoint,
                    other,
                )
                &&& cleared.workspace_context(other_endpoint, other) == state.workspace_context(
                    other_endpoint,
                    other,
                )
            }
        }),
{
    crate::protocol::lemma_storage_key_injective(endpoint, other_endpoint);
    let key = workspace_key(endpoint, workspace.workspace_id);
    if !state.pending.contains_key(key) {
        assert(state.set_pending(key, context).clear_pending(key).pending =~= state.pending);
    }
}

// ---- configuration ----
/// Another configuration takes effect at once, and a second time changes nothing. Under the same
/// default name only the token changes. Under another one that name is no context any more, and
/// everything else stays.
pub proof fn law_configuration_is_reapplied(
    state: ContextModel,
    token_key: Option<Text>,
    default_name: Text,
)
    ensures
        ({
            let after = state.apply_config(token_key, default_name);
            &&& after.token_key == token_key && after.default_name == default_name
            &&& after.apply_config(token_key, default_name) == after
            &&& after.pending == state.pending
            &&& after.assignments == state.assignments
            &&& after.queued_reports == state.queued_reports
            &&& default_name == state.default_name ==> after.active == state.active && after.known
                == state.known
            &&& default_name != state.default_name ==> {
                &&& !after.known.contains(default_name)
                &&& after.active == if state.active == Selection::Named(default_name) {
                    Selection::Default
                } else {
                    state.active
                }
                &&& after.known == state.known.remove(default_name)
            }
        }),
{
}

// ---- reports ----
/// Reports are handed out once: those for an endpoint are taken, and those for others stay, in
/// their order.
pub proof fn law_reports_are_taken_once(
    state: ContextModel,
    endpoint: EndpointText,
    other: EndpointText,
)
    ensures
        ({
            let after = state.without_reports_for(endpoint);
            &&& after.reports_for(endpoint) == Seq::<ReportText>::empty()
            &&& after.without_reports_for(endpoint) == after
            &&& other != endpoint ==> after.reports_for(other) == state.reports_for(other)
            &&& state.reports_for(endpoint).len() + after.queued_reports.len()
                == state.queued_reports.len()
        }),
{
    lemma_reports(state.queued_reports, endpoint, other);
    let after = state.without_reports_for(endpoint);
    assert(after.without_reports_for(endpoint) =~= after);
}

/// Filtering reports by endpoint.
proof fn lemma_reports(reports: Seq<ReportText>, endpoint: EndpointText, other: EndpointText)
    ensures
        ({
            let mine = |report: ReportText| report.endpoint == endpoint;
            let rest = |report: ReportText| report.endpoint != endpoint;
            let others = |report: ReportText| report.endpoint == other;
            &&& reports.filter(rest).filter(mine) == Seq::<ReportText>::empty()
            &&& reports.filter(rest).filter(rest) == reports.filter(rest)
            &&& other != endpoint ==> reports.filter(rest).filter(others) == reports.filter(others)
            &&& reports.filter(mine).len() + reports.filter(rest).len() == reports.len()
        }),
    decreases reports.len(),
{
    reveal(Seq::filter);
    let mine = |report: ReportText| report.endpoint == endpoint;
    let rest = |report: ReportText| report.endpoint != endpoint;
    let others = |report: ReportText| report.endpoint == other;
    if reports.len() > 0 {
        let short = reports.drop_last();
        lemma_reports(short, endpoint, other);
        let kept = short.filter(rest);
        if rest(reports.last()) {
            assert(kept.push(reports.last()).drop_last() =~= kept);
        }
    }
}

// ---- invariants ----
/// Every operation keeps the state valid: whatever happens, the active context is known, and no
/// known context has the label of a built-in tab that shows workspaces.
pub proof fn law_operations_keep_the_state_valid(
    state: ContextModel,
    selection: Selection,
    delta: int,
    name: Text,
    raw: Text,
    key: KeyText,
    context: Option<Text>,
    token_key: Option<Text>,
    endpoint: EndpointText,
)
    requires
        state.valid(),
    ensures
        ContextModel::fresh(token_key, name).valid(),
        state.select(selection).valid(),
        state.cycle(delta).valid(),
        state.add_known(raw).valid(),
        state.remove_known(name).valid(),
        state.rename_known(name, raw).valid(),
        state.apply_config(token_key, name).valid(),
        state.set_pending(key, context).valid(),
        state.clear_pending(key).valid(),
        state.without_reports_for(endpoint).valid(),
{
    let removed = state.remove_known(name);
    assert(removed.pending.dom() =~= state.pending.dom());
    assert(removed.assignments.dom().subset_of(state.assignments.dom()));
    vstd::set_lib::lemma_set_subset_finite(state.assignments.dom(), removed.assignments.dom());
    let renamed = state.rename_known(name, raw);
    assert(renamed.pending.dom() =~= state.pending.dom());
    assert(renamed.assignments.dom() =~= state.assignments.dom());
}

/// The contexts that moves and backups name stay known, but for the names of built-in tabs. Only a
/// configuration that gives up a default name in use makes an exception: it is no longer built in,
/// and not known yet.
pub proof fn law_contexts_in_use_stay_known(
    state: ContextModel,
    selection: Selection,
    delta: int,
    name: Text,
    raw: Text,
    key: KeyText,
    context: Option<Text>,
    token_key: Option<Text>,
    endpoint: EndpointText,
)
    requires
        state.covered(),
    ensures
        ContextModel::fresh(token_key, name).covered(),
        state.select(selection).covered(),
        state.cycle(delta).covered(),
        state.add_known(raw).covered(),
        state.remove_known(name).covered(),
        state.rename_known(name, raw).covered(),
        name == state.default_name || !state.uses(state.default_name) ==> state.apply_config(
            token_key,
            name,
        ).covered(),
        state.set_pending(key, context).covered(),
        state.clear_pending(key).covered(),
        state.without_reports_for(endpoint).covered(),
{
    lemma_more_known(state, state.select(selection));
    lemma_more_known(state, state.cycle(delta));
    lemma_more_known(state, state.add_known(raw));
    lemma_more_known(state, state.clear_pending(key));
    lemma_more_known(state, state.without_reports_for(endpoint));
    let moved = state.set_pending(key, context);
    assert forall|other: KeyText|
        #![trigger moved.pending[other]]
        moved.pending.contains_key(other) implies (moved.pending[other] matches Some(used)
        ==> moved.has_tab(used)) by {
        assert(other != key ==> moved.pending[other] == state.pending[other]);
    }
    let removed = state.remove_known(name);
    assert forall|other: KeyText|
        #![trigger removed.pending[other]]
        removed.pending.contains_key(other) implies (removed.pending[other] matches Some(used)
        ==> removed.has_tab(used)) by {
        assert(state.pending[other] == removed.pending[other] || removed.pending[other] is None);
    }
    assert forall|other: KeyText|
        #![trigger removed.assignments[other]]
        removed.assignments.contains_key(other) implies removed.has_tab(removed.assignments[other].context) by {
        assert(state.assignments[other] == removed.assignments[other]);
    }
    if let Some(new_name) = state.renamed_to(name, raw) {
        let renamed = state.rename_known(name, raw);
        assert forall|other: KeyText|
            #![trigger renamed.pending[other]]
            renamed.pending.contains_key(other) implies (renamed.pending[other] matches Some(used)
            ==> renamed.has_tab(used)) by {
            assert(state.pending[other] matches Some(used) ==> state.has_tab(used));
        }
        assert forall|other: KeyText|
            #![trigger renamed.assignments[other]]
            renamed.assignments.contains_key(other) implies renamed.has_tab(renamed.assignments[other].context) by {
            assert(state.has_tab(state.assignments[other].context));
        }
    }
    if name != state.default_name && !state.uses(state.default_name) {
        let after = state.apply_config(token_key, name);
        assert forall|other: KeyText|
            #![trigger after.pending[other]]
            after.pending.contains_key(other) implies (after.pending[other] matches Some(used)
            ==> after.has_tab(used)) by {
            assert(state.pending.contains_key(other));
        }
        assert forall|other: KeyText|
            #![trigger after.assignments[other]]
            after.assignments.contains_key(other) implies after.has_tab(after.assignments[other].context) by {
            assert(state.assignments.contains_key(other));
        }
    }
}

/// With more contexts known and no other moves and backups, those in use are still known.
proof fn lemma_more_known(state: ContextModel, after: ContextModel)
    requires
        state.covered(),
        state.known.subset_of(after.known),
        after.pending.submap_of(state.pending),
        after.assignments == state.assignments,
        after.default_name == state.default_name,
    ensures
        after.covered(),
{
    assert forall|key: KeyText|
        #![trigger after.pending[key]]
        after.pending.contains_key(key) implies (after.pending[key] matches Some(name)
        ==> after.has_tab(name)) by {
        assert(after.pending.dom().contains(key) ==> state.pending.dom().contains(key));
        assert(state.pending[key] == after.pending[key]);
    }
}

} // verus!
