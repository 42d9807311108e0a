//! The context state as a mathematical value, and what each operation makes of it.

use crate::name_set::in_order;
use crate::preferences::{SavedContext, SavedContexts, SavedSelection};
use crate::protocol::{EndpointText, SnapshotText, WorkspaceText};
use crate::table::{entries_in_order, kept, KeyText};
use crate::text::{normalized, Text};
use vstd::prelude::*;

verus! {

/// Label of the built-in tab that shows every workspace.
pub const ALL_CONTEXTS_LABEL: &'static str = "all";

/// Label of the built-in tab that prompts for a new context.
pub const NEW_CONTEXT_LABEL: &'static str = "+";

/// The tab that is active.
pub enum Selection {
    Default,
    Named(Text),
    All,
}

impl Selection {
    /// The context that is active, if it is a named one.
    pub open spec fn named(self) -> Option<Text> {
        match self {
            Selection::Named(name) => Some(name),
            _ => None,
        }
    }
}

/// One cell of the tab row.
pub enum TabText {
    New,
    Default,
    Named(Text),
    All,
}

impl TabText {
    /// What the cell is labelled with.
    pub open spec fn label(self, default_name: Text) -> Text {
        match self {
            TabText::New => NEW_CONTEXT_LABEL@,
            TabText::Default => default_name,
            TabText::Named(name) => name,
            TabText::All => ALL_CONTEXTS_LABEL@,
        }
    }

    /// What the cell selects.
    pub open spec fn selects(self) -> Option<Selection> {
        match self {
            TabText::New => None,
            TabText::Default => Some(Selection::Default),
            TabText::Named(name) => Some(Selection::Named(name)),
            TabText::All => Some(Selection::All),
        }
    }

    /// The context of the cell, if it is a named one.
    pub open spec fn named(self) -> Option<Text> {
        match self {
            TabText::Named(name) => Some(name),
            _ => None,
        }
    }
}

/// A context that a server confirmed, and the boot of that server.
pub struct AssignmentText {
    pub context: Text,
    pub boot_id: Text,
}

/// A report to be sent to an endpoint.
pub struct ReportText {
    pub endpoint: EndpointText,
    pub workspace_id: Text,
    pub context: Option<Text>,
}

/// Everything that the context state holds.
#[verifier::ext_equal]
pub struct ContextModel {
    pub token_key: Option<Text>,
    pub default_name: Text,
    pub active: Selection,
    pub known: Set<Text>,
    pub pending: Map<KeyText, Option<Text>>,
    pub assignments: Map<KeyText, AssignmentText>,
    pub queued_reports: Seq<ReportText>,
}

/// The value of the first token with this name.
pub open spec fn first_value(tokens: Seq<(Text, Text)>, name: Text) -> Option<Text>
    decreases tokens.len(),
{
    if tokens.len() == 0 {
        None
    } else if tokens[0].0 == name {
        Some(tokens[0].1)
    } else {
        first_value(tokens.drop_first(), name)
    }
}

/// The key of a workspace on an endpoint.
pub open spec fn workspace_key(endpoint: EndpointText, workspace_id: Text) -> KeyText {
    (endpoint.storage_key(), workspace_id)
}

impl ContextModel {
    /// The state of a client that has seen nothing yet.
    pub open spec fn fresh(token_key: Option<Text>, default_name: Text) -> ContextModel {
        ContextModel {
            token_key,
            default_name,
            active: Selection::Default,
            known: Set::empty(),
            pending: Map::empty(),
            assignments: Map::empty(),
            queued_reports: Seq::empty(),
        }
    }

    /// Contexts are in use only where a token is configured for them.
    pub open spec fn enabled(self) -> bool {
        self.token_key is Some
    }

    /// The labels of the built-in tabs that show workspaces, which cannot double as contexts.
    pub open spec fn built_in(self, name: Text) -> bool {
        name == self.default_name || name == ALL_CONTEXTS_LABEL@
    }

    /// The labels of all built-in tabs, which nobody can select or give as the name of a context.
    pub open spec fn reserved(self, name: Text) -> bool {
        self.built_in(name) || name == NEW_CONTEXT_LABEL@
    }

    /// No known context has the label of a built-in tab that shows workspaces.
    pub open spec fn distinct_from_built_in(self) -> bool {
        forall|name: Text| #[trigger] self.known.contains(name) ==> !self.built_in(name)
    }

    /// The known contexts with one more, unless a built-in tab that shows workspaces has its name.
    pub open spec fn known_with(self, name: Text) -> Set<Text> {
        if self.built_in(name) {
            self.known
        } else {
            self.known.insert(name)
        }
    }

    /// The name is that of a known context, or of a built-in tab that shows workspaces.
    pub open spec fn has_tab(self, name: Text) -> bool {
        self.known.contains(name) || self.built_in(name)
    }

    /// The contexts that pending moves and backups name are known, but for the names of built-in
    /// tabs that show workspaces.
    pub open spec fn covered(self) -> bool {
        &&& forall|key: KeyText|
            #![trigger self.pending[key]]
            self.pending.contains_key(key) ==> (self.pending[key] matches Some(name)
                ==> self.has_tab(name))
        &&& forall|key: KeyText|
            #![trigger self.assignments[key]]
            self.assignments.contains_key(key) ==> self.has_tab(self.assignments[key].context)
    }

    /// A pending move or a backup names the context.
    pub open spec fn uses(self, name: Text) -> bool {
        ||| exists|key: KeyText| #[trigger]
            self.pending.contains_key(key) && self.pending[key] == Some(name)
        ||| self.backed_up(name)
    }

    /// The active context is known, and is no built-in tab.
    pub open spec fn sound(self) -> bool {
        self.active matches Selection::Named(name) ==> self.known.contains(name) && !self.reserved(
            name,
        )
    }

    /// What every context state meets: it is sound, no known context has the label of a built-in
    /// tab that shows workspaces, and it holds finitely many things.
    pub open spec fn valid(self) -> bool {
        &&& self.sound()
        &&& self.distinct_from_built_in()
        &&& self.known.finite()
        &&& self.pending.dom().finite()
        &&& self.assignments.dom().finite()
    }

    /// The same state with another tab active.
    pub open spec fn under(self, selection: Selection) -> ContextModel {
        ContextModel { active: selection, ..self }
    }

    // ---- tabs ----
    /// A tab row: the cell for a new context, the default tab, every known context in order,
    /// and the tab that shows everything.
    pub open spec fn tabs(self) -> Seq<TabText> {
        seq![TabText::New, TabText::Default] + in_order(self.known).map_values(
            |name: Text| TabText::Named(name),
        ) + seq![TabText::All]
    }

    /// What can be selected, in the order of the tabs.
    pub open spec fn selectable(self) -> Seq<Selection> {
        seq![Selection::Default] + in_order(self.known).map_values(
            |name: Text| Selection::Named(name),
        ) + seq![Selection::All]
    }

    /// A built-in label cannot be selected as a context.
    pub open spec fn refuses(self, selection: Selection) -> bool {
        selection matches Selection::Named(name) && self.reserved(name)
    }

    /// Another selection. A name that is selected becomes known.
    pub open spec fn select(self, selection: Selection) -> ContextModel {
        if self.refuses(selection) {
            self
        } else {
            ContextModel {
                active: selection,
                known: match selection {
                    Selection::Named(name) => self.known.insert(name),
                    _ => self.known,
                },
                ..self
            }
        }
    }

    /// Where the selection stands that lies `delta` places from the active one, counted round.
    pub open spec fn step(self, delta: int) -> int {
        (self.selectable().index_of(self.active) + delta) % (self.selectable().len() as int)
    }

    /// The tab `delta` places further has a reserved name, and cannot be selected.
    pub open spec fn blocked(self, delta: int) -> bool {
        self.refuses(self.selectable()[self.step(delta)])
    }

    /// The selection `delta` places further.
    pub open spec fn cycle(self, delta: int) -> ContextModel {
        self.select(self.selectable()[self.step(delta)])
    }

    // ---- names ----
    /// The name under which `raw` becomes known, if it can.
    pub open spec fn admitted(self, raw: Text) -> Option<Text> {
        match normalized(raw) {
            Some(name) => if self.reserved(name) {
                None
            } else {
                Some(name)
            },
            None => None,
        }
    }

    /// One more known context.
    pub open spec fn add_known(self, raw: Text) -> ContextModel {
        match self.admitted(raw) {
            Some(name) => ContextModel { known: self.known.insert(name), ..self },
            None => self,
        }
    }

    /// A context that is known no more. What was to move into it moves to the default, and the
    /// backups that name it are gone.
    pub open spec fn remove_known(self, name: Text) -> ContextModel {
        ContextModel {
            active: if self.active == Selection::Named(name) {
                Selection::Default
            } else {
                self.active
            },
            known: self.known.remove(name),
            pending: self.pending.map_values(
                |context: Option<Text>|
                    if context == Some(name) {
                        None
                    } else {
                        context
                    },
            ),
            assignments: kept(
                self.assignments,
                |key: KeyText, assignment: AssignmentText| assignment.context != name,
            ),
            ..self
        }
    }

    /// The name that a context gets when it is renamed, if it can be.
    pub open spec fn renamed_to(self, old_name: Text, raw: Text) -> Option<Text> {
        match self.admitted(raw) {
            Some(name) => if name == old_name || !self.known.contains(old_name) {
                None
            } else {
                Some(name)
            },
            None => None,
        }
    }

    /// A context under another name, everywhere.
    pub open spec fn replace_name(self, old_name: Text, name: Text) -> ContextModel {
        ContextModel {
            active: if self.active == Selection::Named(old_name) {
                Selection::Named(name)
            } else {
                self.active
            },
            known: self.known.remove(old_name).insert(name),
            pending: self.pending.map_values(
                |context: Option<Text>|
                    if context == Some(old_name) {
                        Some(name)
                    } else {
                        context
                    },
            ),
            assignments: self.assignments.map_values(
                |assignment: AssignmentText|
                    if assignment.context == old_name {
                        AssignmentText { context: name, ..assignment }
                    } else {
                        assignment
                    },
            ),
            ..self
        }
    }

    /// A context under another name, where it can have it.
    pub open spec fn rename_known(self, old_name: Text, raw: Text) -> ContextModel {
        match self.renamed_to(old_name, raw) {
            Some(name) => self.replace_name(old_name, name),
            None => self,
        }
    }

    /// Another configuration. A new default name is no context any more.
    pub open spec fn apply_config(
        self,
        token_key: Option<Text>,
        default_name: Text,
    ) -> ContextModel {
        if default_name == self.default_name {
            ContextModel { token_key, ..self }
        } else {
            ContextModel {
                token_key,
                default_name,
                known: self.known.remove(default_name),
                active: if self.active == Selection::Named(default_name) {
                    Selection::Default
                } else {
                    self.active
                },
                ..self
            }
        }
    }

    // ---- workspaces ----
    /// The context that the tokens of a workspace put it in. The default name is no context.
    pub open spec fn token_value(self, workspace: WorkspaceText) -> Option<Text> {
        match self.token_key {
            Some(key) => match first_value(workspace.tokens, key) {
                Some(value) => if value == self.default_name {
                    None
                } else {
                    Some(value)
                },
                None => None,
            },
            None => None,
        }
    }

    /// The context that a workspace is shown under: a pending move wins over the token.
    pub open spec fn workspace_context(
        self,
        endpoint: EndpointText,
        workspace: WorkspaceText,
    ) -> Option<Text> {
        match self.pending.get(workspace_key(endpoint, workspace.workspace_id)) {
            Some(context) => context,
            None => self.token_value(workspace),
        }
    }

    /// Whether the active tab shows a workspace.
    pub open spec fn workspace_visible(
        self,
        endpoint: EndpointText,
        workspace: WorkspaceText,
    ) -> bool {
        self.enabled() ==> match self.active {
            Selection::All => true,
            Selection::Default => self.workspace_context(endpoint, workspace) is None,
            Selection::Named(name) => self.workspace_context(endpoint, workspace) == Some(name),
        }
    }

    /// Whether the active tab shows the first workspace with this id.
    pub open spec fn workspace_id_visible(
        self,
        endpoint: EndpointText,
        workspaces: Seq<WorkspaceText>,
        workspace_id: Text,
    ) -> bool
        decreases workspaces.len(),
    {
        if workspaces.len() == 0 {
            false
        } else if workspaces[0].workspace_id == workspace_id {
            self.workspace_visible(endpoint, workspaces[0])
        } else {
            self.workspace_id_visible(endpoint, workspaces.drop_first(), workspace_id)
        }
    }

    /// The ids of the workspaces that are shown under a context.
    pub open spec fn workspaces_in_context(
        self,
        endpoint: EndpointText,
        workspaces: Seq<WorkspaceText>,
        name: Text,
    ) -> Seq<Text> {
        workspaces.filter(
            |workspace: WorkspaceText| self.workspace_context(endpoint, workspace) == Some(name),
        ).map_values(|workspace: WorkspaceText| workspace.workspace_id)
    }

    /// A move of a workspace that is on its way to the server.
    pub open spec fn set_pending(self, key: KeyText, context: Option<Text>) -> ContextModel {
        ContextModel {
            known: match context {
                Some(name) => self.known_with(name),
                None => self.known,
            },
            pending: self.pending.insert(key, context),
            ..self
        }
    }

    /// A move that is no longer on its way.
    pub open spec fn clear_pending(self, key: KeyText) -> ContextModel {
        ContextModel { pending: self.pending.remove(key), ..self }
    }

    // ---- snapshots ----
    /// What one workspace of a snapshot tells, when its token names a context: the context is
    /// known unless a built-in tab that shows workspaces has its name, it is backed up with the
    /// boot, and a pending move into it is confirmed.
    pub open spec fn observe_value(self, key: KeyText, boot_id: Text, value: Text) -> ContextModel {
        ContextModel {
            known: self.known_with(value),
            assignments: self.assignments.insert(
                key,
                AssignmentText { context: value, boot_id },
            ),
            pending: if self.pending.get(key) == Some(Some(value)) {
                self.pending.remove(key)
            } else {
                self.pending
            },
            ..self
        }
    }

    /// The backup of a workspace is from another boot: the server lost it.
    pub open spec fn lost(self, key: KeyText, boot_id: Text) -> bool {
        self.assignments.contains_key(key) && self.assignments[key].boot_id != boot_id
    }

    /// The context that the server lost is reported to it again, and holds meanwhile.
    pub open spec fn requeue(
        self,
        endpoint: EndpointText,
        workspace_id: Text,
        boot_id: Text,
    ) -> ContextModel {
        let key = workspace_key(endpoint, workspace_id);
        let context = self.assignments[key].context;
        ContextModel {
            queued_reports: self.queued_reports.push(
                ReportText { endpoint, workspace_id, context: Some(context) },
            ),
            pending: self.pending.insert(key, Some(context)),
            assignments: self.assignments.insert(key, AssignmentText { context, boot_id }),
            ..self
        }
    }

    /// The token of a workspace was cleared on purpose, unless a move into a context is on its
    /// way: its backup is gone, and a move to the default is confirmed.
    pub open spec fn observe_cleared(self, key: KeyText) -> ContextModel {
        ContextModel {
            assignments: if self.pending.get(key) matches Some(Some(_)) {
                self.assignments
            } else {
                self.assignments.remove(key)
            },
            pending: if self.pending.get(key) == Some(None::<Text>) {
                self.pending.remove(key)
            } else {
                self.pending
            },
            ..self
        }
    }

    /// What one workspace of a snapshot tells.
    pub open spec fn observe_workspace(
        self,
        endpoint: EndpointText,
        boot_id: Text,
        workspace: WorkspaceText,
    ) -> ContextModel {
        let key = workspace_key(endpoint, workspace.workspace_id);
        match self.token_value(workspace) {
            Some(value) => self.observe_value(key, boot_id, value),
            None => if self.lost(key, boot_id) {
                self.requeue(endpoint, workspace.workspace_id, boot_id)
            } else {
                self.observe_cleared(key)
            },
        }
    }

    /// What the workspaces of a snapshot tell, one after the other.
    pub open spec fn observe_workspaces(
        self,
        endpoint: EndpointText,
        boot_id: Text,
        workspaces: Seq<WorkspaceText>,
    ) -> ContextModel
        decreases workspaces.len(),
    {
        if workspaces.len() == 0 {
            self
        } else {
            self.observe_workspaces(endpoint, boot_id, workspaces.drop_last()).observe_workspace(
                endpoint,
                boot_id,
                workspaces.last(),
            )
        }
    }

    /// Only what belongs to another endpoint, or to a workspace that the snapshot shows.
    pub open spec fn retain_shown(
        self,
        endpoint: EndpointText,
        snapshot: SnapshotText,
    ) -> ContextModel {
        ContextModel {
            assignments: kept(
                self.assignments,
                |key: KeyText, assignment: AssignmentText|
                    key.0 != endpoint.storage_key() || snapshot.shows(key.1),
            ),
            pending: kept(
                self.pending,
                |key: KeyText, context: Option<Text>|
                    key.0 != endpoint.storage_key() || snapshot.shows(key.1),
            ),
            ..self
        }
    }

    /// What a snapshot of an endpoint makes of the state.
    pub open spec fn observe_snapshot(
        self,
        endpoint: EndpointText,
        snapshot: SnapshotText,
    ) -> ContextModel {
        if self.enabled() {
            self.observe_workspaces(endpoint, snapshot.boot_id, snapshot.workspaces).retain_shown(
                endpoint,
                snapshot,
            )
        } else {
            self
        }
    }

    /// The states save the same contexts, up to the active one.
    pub open spec fn saves_as(self, other: ContextModel) -> bool {
        self.known == other.known && self.assignments == other.assignments
    }

    /// Some workspace of a snapshot changes what is saved.
    pub open spec fn workspaces_change(
        self,
        endpoint: EndpointText,
        boot_id: Text,
        workspaces: Seq<WorkspaceText>,
    ) -> bool {
        exists|i: int|
            #![trigger workspaces.take(i)]
            0 <= i < workspaces.len() && !self.observe_workspaces(
                endpoint,
                boot_id,
                workspaces.take(i),
            ).saves_as(self.observe_workspaces(endpoint, boot_id, workspaces.take(i + 1)))
    }

    /// One more workspace changes what is saved if it does so itself, or if one before it does.
    pub proof fn lemma_workspaces_change(
        self,
        endpoint: EndpointText,
        boot_id: Text,
        workspaces: Seq<WorkspaceText>,
        i: int,
    )
        requires
            0 <= i < workspaces.len(),
        ensures
            self.workspaces_change(endpoint, boot_id, workspaces.take(i + 1)) == (
            self.workspaces_change(endpoint, boot_id, workspaces.take(i))
                || !self.observe_workspaces(endpoint, boot_id, workspaces.take(i)).saves_as(
                self.observe_workspaces(endpoint, boot_id, workspaces.take(i + 1)),
            )),
    {
        let long = workspaces.take(i + 1);
        let short = workspaces.take(i);
        assert forall|j: int| 0 <= j <= i implies #[trigger] long.take(j) == workspaces.take(j) by {
            assert(long.take(j) =~= workspaces.take(j));
        }
        assert forall|j: int| 0 <= j <= i implies #[trigger] short.take(j) == workspaces.take(
            j,
        ) by {
            assert(short.take(j) =~= workspaces.take(j));
        }
        assert(long.take(i + 1) =~= long);
        if self.workspaces_change(endpoint, boot_id, long) {
            let j = choose|j: int|
                #![trigger long.take(j)]
                0 <= j < long.len() && !self.observe_workspaces(
                    endpoint,
                    boot_id,
                    long.take(j),
                ).saves_as(self.observe_workspaces(endpoint, boot_id, long.take(j + 1)));
            if j < i {
                assert(short.take(j) == long.take(j));
                assert(long.take(j + 1) == short.take(j + 1));
            }
        }
        if self.workspaces_change(endpoint, boot_id, short) {
            let j = choose|j: int|
                #![trigger short.take(j)]
                0 <= j < short.len() && !self.observe_workspaces(
                    endpoint,
                    boot_id,
                    short.take(j),
                ).saves_as(self.observe_workspaces(endpoint, boot_id, short.take(j + 1)));
            assert(long.take(j) == short.take(j));
            assert(long.take(j + 1) == short.take(j + 1));
        }
        assert(long.take(i) == short);
    }

    /// Some step of taking in a snapshot changes what is saved.
    pub open spec fn snapshot_changes(
        self,
        endpoint: EndpointText,
        snapshot: SnapshotText,
    ) -> bool {
        let observed = self.observe_workspaces(endpoint, snapshot.boot_id, snapshot.workspaces);
        self.enabled() && (self.workspaces_change(
            endpoint,
            snapshot.boot_id,
            snapshot.workspaces,
        ) || !observed.saves_as(observed.retain_shown(endpoint, snapshot)))
    }

    /// The reports for an endpoint, oldest first.
    pub open spec fn reports_for(self, endpoint: EndpointText) -> Seq<ReportText> {
        self.queued_reports.filter(|report: ReportText| report.endpoint == endpoint)
    }

    /// Only the reports for other endpoints are left.
    pub open spec fn without_reports_for(self, endpoint: EndpointText) -> ContextModel {
        ContextModel {
            queued_reports: self.queued_reports.filter(
                |report: ReportText| report.endpoint != endpoint,
            ),
            ..self
        }
    }

    // ---- preferences ----
    /// The known contexts of saved preferences.
    pub open spec fn add_all(self, names: Seq<Text>) -> ContextModel
        decreases names.len(),
    {
        if names.len() == 0 {
            self
        } else {
            self.add_all(names.drop_last()).add_known(names.last())
        }
    }

    /// The name under which a saved backup makes its context known, if it does.
    pub open spec fn learned(self, raw: Text) -> Option<Text> {
        match normalized(raw) {
            Some(name) => if self.built_in(name) {
                None
            } else {
                Some(name)
            },
            None => None,
        }
    }

    /// One saved backup.
    pub open spec fn restore_workspace(self, saved: SavedContext) -> ContextModel {
        match normalized(saved.context) {
            Some(context) => ContextModel {
                known: self.known_with(context),
                assignments: self.assignments.insert(
                    saved.key(),
                    AssignmentText { context, boot_id: saved.boot_id },
                ),
                ..self
            },
            None => self,
        }
    }

    /// The backups of saved preferences.
    pub open spec fn restore_workspaces(self, saved: Seq<SavedContext>) -> ContextModel
        decreases saved.len(),
    {
        if saved.len() == 0 {
            self
        } else {
            self.restore_workspaces(saved.drop_last()).restore_workspace(saved.last())
        }
    }

    /// The active tab of saved preferences.
    pub open spec fn restore_active(self, saved: Option<SavedSelection>) -> ContextModel {
        match saved {
            Some(SavedSelection::All) => ContextModel { active: Selection::All, ..self },
            Some(SavedSelection::Named(raw)) => match normalized(raw) {
                Some(name) => self.select(Selection::Named(name)),
                None => self,
            },
            _ => self,
        }
    }

    /// The state of a client that starts with saved preferences, or without any.
    pub open spec fn restored(
        token_key: Option<Text>,
        default_name: Text,
        saved: Option<SavedContexts>,
    ) -> ContextModel {
        let fresh = ContextModel::fresh(token_key, default_name);
        match saved {
            Some(saved) => fresh.add_all(saved.known).restore_workspaces(
                saved.workspaces,
            ).restore_active(saved.active),
            None => fresh,
        }
    }

    /// What is saved of the state.
    pub open spec fn saved(self) -> SavedContexts {
        SavedContexts {
            active: match self.active {
                Selection::Default => None,
                Selection::All => Some(SavedSelection::All),
                Selection::Named(name) => Some(SavedSelection::Named(name)),
            },
            known: in_order(self.known),
            workspaces: entries_in_order(self.assignments).map_values(
                |entry: (KeyText, AssignmentText)|
                    SavedContext {
                        endpoint: entry.0.0,
                        boot_id: entry.1.boot_id,
                        workspace_id: entry.0.1,
                        context: entry.1.context,
                    },
            ),
        }
    }

    /// What is saved of the state brings it back: the known contexts and those of the backups have
    /// the form in which names are kept, known contexts with a reserved name are backed up, and
    /// backups name known contexts or built-in tabs.
    pub open spec fn storable(self) -> bool {
        &&& forall|name: Text| #[trigger]
            self.known.contains(name) ==> normalized(name) == Some(name) && (!self.reserved(name)
                || self.backed_up(name))
        &&& forall|key: KeyText|
            #![trigger self.assignments[key]]
            self.assignments.contains_key(key) ==> {
                let context = self.assignments[key].context;
                normalized(context) == Some(context) && self.has_tab(context)
            }
    }

    /// A backup names the context.
    pub open spec fn backed_up(self, name: Text) -> bool {
        exists|key: KeyText| #[trigger]
            self.assignments.contains_key(key) && self.assignments[key].context == name
    }

    /// The state with everything forgotten that is not saved.
    pub open spec fn saved_part(self, token_key: Option<Text>) -> ContextModel {
        ContextModel {
            token_key,
            pending: Map::empty(),
            queued_reports: Seq::empty(),
            ..self
        }
    }

    /// There is nothing to save.
    pub open spec fn nothing_to_save(self) -> bool {
        self.active is Default && self.known.is_empty() && self.assignments.is_empty()
    }

    /// What is saved of the state, if there is anything.
    pub open spec fn to_preferences(self) -> Option<SavedContexts> {
        if self.nothing_to_save() {
            None
        } else {
            Some(self.saved())
        }
    }
}

} // verus!
