//! Context tabs: a grouping of workspaces by one metadata token.
//!
//! The server owns the token values. The state here only tracks which contexts the client knows
//! about, which one is active, a short-lived overlay while a report to the server is in flight,
//! and a backup of each workspace's context, so that it can be reported again after the server
//! restarts and forgets its tokens.

use crate::laws::lemma_selectable;
use crate::model::{
    first_value, workspace_key, AssignmentText, ContextModel, ReportText, Selection, TabText,
    ALL_CONTEXTS_LABEL, NEW_CONTEXT_LABEL,
};
use crate::name_set::{in_order, NameSet};
use crate::preferences::{
    ClientContextPreferences, ClientContextSelection, ClientWorkspaceContext, SavedContext,
};
use crate::protocol::{
    ClientEndpointId, ClientShellSnapshot, ClientShellWorkspace, EndpointText, WorkspaceText,
};
use crate::table::{kept, keys_of, lemma_entry, lemma_key, lemma_map_values, KeyText};
use crate::table::{WorkspaceKey, WorkspaceTable};
use crate::text::{normalize, normalized, same, text_of, Text};
use vstd::prelude::*;

verus! {

/// Source of every metadata report that the tab row sends.
pub const CONTEXT_METADATA_SOURCE: &'static str = "herdr-client:context-tabs";

/// The tab that is active.
#[derive(Debug, PartialEq, Eq)]
pub enum ActiveContext {
    Default,
    Named(String),
    All,
}

impl DeepView for ActiveContext {
    type V = Selection;

    open spec fn deep_view(&self) -> Selection {
        match self {
            ActiveContext::Default => Selection::Default,
            ActiveContext::Named(name) => Selection::Named(name@),
            ActiveContext::All => Selection::All,
        }
    }
}

impl Clone for ActiveContext {
    fn clone(&self) -> (r: Self)
        ensures
            r == *self,
    {
        match self {
            ActiveContext::Default => ActiveContext::Default,
            ActiveContext::Named(name) => ActiveContext::Named(name.clone()),
            ActiveContext::All => ActiveContext::All,
        }
    }
}

impl ActiveContext {
    /// The context that is active, if it is a named one.
    pub fn named(&self) -> (r: Option<&str>)
        ensures
            text_of(r) == self.deep_view().named(),
    {
        match self {
            ActiveContext::Named(name) => Some(name.as_str()),
            ActiveContext::Default | ActiveContext::All => None,
        }
    }

    /// Whether the active context is the one with this name.
    pub fn is_named(&self, name: &str) -> (r: bool)
        ensures
            r == (self.deep_view() == Selection::Named(name@)),
    {
        match self.named() {
            Some(active) => same(active, name),
            None => false,
        }
    }

    /// Whether both stand for the same tab.
    pub fn same_selection(&self, other: &ActiveContext) -> (r: bool)
        ensures
            r == (self.deep_view() == other.deep_view()),
    {
        match (self, other) {
            (ActiveContext::Default, ActiveContext::Default) => true,
            (ActiveContext::All, ActiveContext::All) => true,
            (ActiveContext::Named(a), ActiveContext::Named(b)) => same(a.as_str(), b.as_str()),
            _ => false,
        }
    }
}

/// One clickable cell in the tab row.
#[derive(Clone, Debug, PartialEq, Eq)]
pub enum ContextTab {
    New,
    Default,
    Named(String),
    All,
}

impl DeepView for ContextTab {
    type V = TabText;

    open spec fn deep_view(&self) -> TabText {
        match self {
            ContextTab::New => TabText::New,
            ContextTab::Default => TabText::Default,
            ContextTab::Named(name) => TabText::Named(name@),
            ContextTab::All => TabText::All,
        }
    }
}

impl ContextTab {
    /// What the cell is labelled with.
    pub fn label<'a>(&'a self, default_name: &'a str) -> (r: &'a str)
        ensures
            r@ == self.deep_view().label(default_name@),
    {
        match self {
            ContextTab::New => NEW_CONTEXT_LABEL,
            ContextTab::Default => default_name,
            ContextTab::Named(name) => name.as_str(),
            ContextTab::All => ALL_CONTEXTS_LABEL,
        }
    }

    /// What the cell selects: every cell but the one for a new context selects something.
    pub fn to_active(&self) -> (r: Option<ActiveContext>)
        ensures
            r.deep_view() == self.deep_view().selects(),
    {
        match self {
            ContextTab::New => None,
            ContextTab::Default => Some(ActiveContext::Default),
            ContextTab::Named(name) => Some(ActiveContext::Named(name.clone())),
            ContextTab::All => Some(ActiveContext::All),
        }
    }

    /// Whether the cell stands for the active tab.
    pub fn is_active(&self, active: &ActiveContext) -> (r: bool)
        ensures
            r == (self.deep_view().selects() == Some(active.deep_view())),
    {
        match self.to_active() {
            Some(selection) => selection.same_selection(active),
            None => false,
        }
    }

    /// The context of the cell. Only contexts that a user made can be renamed or removed.
    pub fn named(&self) -> (r: Option<&str>)
        ensures
            text_of(r) == self.deep_view().named(),
    {
        match self {
            ContextTab::Named(name) => Some(name.as_str()),
            _ => None,
        }
    }
}

/// A metadata report that the client wants to send once the endpoint can take it.
#[derive(Clone, Debug, PartialEq, Eq)]
pub struct QueuedContextReport {
    pub endpoint_id: ClientEndpointId,
    pub workspace_id: String,
    pub context: Option<String>,
}

impl DeepView for QueuedContextReport {
    type V = ReportText;

    open spec fn deep_view(&self) -> ReportText {
        ReportText {
            endpoint: self.endpoint_id.deep_view(),
            workspace_id: self.workspace_id@,
            context: self.context.deep_view(),
        }
    }
}

/// A context that a server confirmed for a workspace, and the boot of that server.
#[derive(Clone, Debug, PartialEq, Eq)]
pub struct Assignment {
    pub context: String,
    pub boot_id: String,
}

impl DeepView for Assignment {
    type V = AssignmentText;

    open spec fn deep_view(&self) -> AssignmentText {
        AssignmentText { context: self.context@, boot_id: self.boot_id@ }
    }
}

/// The contexts of a client.
#[derive(Clone, Debug)]
pub struct ContextState {
    token_key: Option<String>,
    default_name: String,
    active: ActiveContext,
    known: NameSet,
    /// Moves on their way to the server, until a snapshot confirms them. `None` is a move to
    /// the default.
    pending: WorkspaceTable<Option<String>>,
    /// Last context that a server confirmed for each workspace.
    assignments: WorkspaceTable<Assignment>,
    queued_reports: Vec<QueuedContextReport>,
}

impl ContextState {
    /// What the state holds.
    pub closed spec fn model(&self) -> ContextModel {
        ContextModel {
            token_key: self.token_key.deep_view(),
            default_name: self.default_name@,
            active: self.active.deep_view(),
            known: self.known.set(),
            pending: self.pending.map(),
            assignments: self.assignments.map(),
            queued_reports: self.queued_reports.deep_view(),
        }
    }

    /// The state was made and changed by its own operations only.
    pub closed spec fn wf(&self) -> bool {
        &&& self.known.wf()
        &&& self.pending.wf()
        &&& self.assignments.wf()
        &&& self.model().sound()
        &&& self.model().distinct_from_built_in()
    }

    /// A well-formed state holds something valid.
    pub proof fn lemma_valid(&self)
        requires
            self.wf(),
        ensures
            self.model().valid(),
    {
        broadcast use vstd::seq_lib::seq_to_set_is_finite;

        assert(self.model().pending.dom() =~= keys_of(self.pending.list()).to_set());
        assert(self.model().assignments.dom() =~= keys_of(self.assignments.list()).to_set());
    }

    /// Whether contexts are in use.
    pub fn enabled(&self) -> (r: bool)
        ensures
            r == self.model().enabled(),
    {
        self.token_key.is_some()
    }

    /// Name of the token that holds the context.
    pub fn token_key(&self) -> (r: Option<&str>)
        ensures
            text_of(r) == self.model().token_key,
    {
        match &self.token_key {
            Some(key) => Some(key.as_str()),
            None => None,
        }
    }

    /// Label of the default tab.
    pub fn default_name(&self) -> (r: &str)
        ensures
            r@ == self.model().default_name,
    {
        self.default_name.as_str()
    }

    /// The tab that is active.
    pub fn active(&self) -> (r: &ActiveContext)
        ensures
            r.deep_view() == self.model().active,
    {
        &self.active
    }

    /// Brings a name into the form that the server keeps token values in.
    pub fn normalize_name(raw: &str) -> (r: Option<String>)
        ensures
            r.deep_view() == normalized(raw@),
    {
        normalize(raw)
    }

    /// Whether a name is the label of a built-in tab, which cannot double as a context.
    pub fn is_reserved_name(&self, name: &str) -> (r: bool)
        ensures
            r == self.model().reserved(name@),
    {
        self.is_built_in(name) || same(name, NEW_CONTEXT_LABEL)
    }

    /// Whether a name is the label of a built-in tab that shows workspaces.
    fn is_built_in(&self, name: &str) -> (r: bool)
        ensures
            r == self.model().built_in(name@),
    {
        same(name, self.default_name.as_str()) || same(name, ALL_CONTEXTS_LABEL)
    }

    /// Makes a context known. Returns whether it is new.
    pub fn add_known(&mut self, name: &str) -> (r: bool)
        requires
            old(self).wf(),
        ensures
            final(self).wf(),
            final(self).model() == old(self).model().add_known(name@),
            r == (old(self).model().admitted(name@) matches Some(admitted)
                && !old(self).model().known.contains(admitted)),
    {
        match Self::normalize_name(name) {
            Some(name) => if self.is_reserved_name(name.as_str()) {
                false
            } else {
                self.known.insert(name)
            },
            None => false,
        }
    }

    /// Makes a context known, unless a built-in tab that shows workspaces has its name. Returns
    /// whether it is new.
    fn learn(&mut self, name: &str) -> (r: bool)
        requires
            old(self).wf(),
        ensures
            final(self).wf(),
            final(self).model() == (ContextModel {
                known: old(self).model().known_with(name@),
                ..old(self).model()
            }),
            r == (final(self).model().known != old(self).model().known),
    {
        let ghost known = self.known.set();
        if self.is_built_in(name) {
            return false;
        }
        let r = self.known.insert(name.to_owned());
        proof {
            if known.contains(name@) {
                assert(known.insert(name@) =~= known);
            } else {
                assert(self.known.set().contains(name@));
            }
        }
        r
    }

    /// Makes another tab active. Selecting an unknown name makes it known. Returns whether the
    /// selection changed.
    pub fn set_active(&mut self, active: ActiveContext) -> (r: bool)
        requires
            old(self).wf(),
        ensures
            final(self).wf(),
            final(self).model() == old(self).model().select(active.deep_view()),
            r == (final(self).model().active != old(self).model().active),
    {
        if let ActiveContext::Named(name) = &active {
            if self.is_reserved_name(name.as_str()) {
                return false;
            }
            self.known.insert(name.clone());
        }
        if self.active.same_selection(&active) {
            return false;
        }
        self.active = active;
        true
    }
}

impl ContextState {
    /// The key of a workspace on an endpoint.
    pub fn key(endpoint_id: &ClientEndpointId, workspace_id: &str) -> (r: WorkspaceKey)
        ensures
            r.deep_view() == workspace_key(endpoint_id.deep_view(), workspace_id@),
    {
        (endpoint_id.storage_key(), workspace_id.to_owned())
    }

    /// The context that the tokens of a workspace put it in. A token equal to the default name
    /// counts as no context.
    pub fn token_value<'a>(&self, workspace: &'a ClientShellWorkspace) -> (r: Option<&'a str>)
        ensures
            text_of(r) == self.model().token_value(workspace.deep_view()),
    {
        let key = match &self.token_key {
            Some(key) => key,
            None => {
                return None;
            },
        };
        let ghost tokens = workspace.tokens.deep_view();
        proof {
            assert(tokens.skip(0) =~= tokens);
        }
        for i in 0..workspace.tokens.len()
            invariant
                tokens == workspace.tokens.deep_view(),
                first_value(tokens, key@) == first_value(tokens.skip(i as int), key@),
                self.model().token_key == Some(key@),
        {
            let (name, value) = &workspace.tokens[i];
            proof {
                assert(tokens.skip(i as int)[0] == (name@, value@));
                assert(tokens.skip(i as int).drop_first() =~= tokens.skip(i + 1));
            }
            if same(name.as_str(), key.as_str()) {
                if same(value.as_str(), self.default_name.as_str()) {
                    return None;
                }
                return Some(value.as_str());
            }
        }
        None
    }

    /// The context that a workspace is shown under: a move in flight wins over the token of the
    /// snapshot.
    pub fn workspace_context<'a>(
        &'a self,
        endpoint_id: &ClientEndpointId,
        workspace: &'a ClientShellWorkspace,
    ) -> (r: Option<&'a str>)
        requires
            self.wf(),
        ensures
            text_of(r) == self.model().workspace_context(
                endpoint_id.deep_view(),
                workspace.deep_view(),
            ),
    {
        let key = Self::key(endpoint_id, workspace.workspace_id.as_str());
        match self.pending.get(key.0.as_str(), key.1.as_str()) {
            Some(pending) => match pending {
                Some(context) => Some(context.as_str()),
                None => None,
            },
            None => self.token_value(workspace),
        }
    }

    /// Whether the active tab shows a workspace.
    pub fn workspace_visible(
        &self,
        endpoint_id: &ClientEndpointId,
        workspace: &ClientShellWorkspace,
    ) -> (r: bool)
        requires
            self.wf(),
        ensures
            r == self.model().workspace_visible(endpoint_id.deep_view(), workspace.deep_view()),
    {
        if !self.enabled() {
            return true;
        }
        match &self.active {
            ActiveContext::All => true,
            ActiveContext::Default => self.workspace_context(endpoint_id, workspace).is_none(),
            ActiveContext::Named(name) => match self.workspace_context(endpoint_id, workspace) {
                Some(context) => same(context, name.as_str()),
                None => false,
            },
        }
    }

    /// The ids of the workspaces of one endpoint that are shown under a context.
    pub fn workspaces_in_context(
        &self,
        endpoint_id: &ClientEndpointId,
        snapshot: &ClientShellSnapshot,
        name: &str,
    ) -> (r: Vec<String>)
        requires
            self.wf(),
        ensures
            r.deep_view() == self.model().workspaces_in_context(
                endpoint_id.deep_view(),
                snapshot.deep_view().workspaces,
                name@,
            ),
    {
        let mut ids: Vec<String> = Vec::new();
        let ghost shown = snapshot.deep_view().workspaces;
        let ghost test = |workspace: WorkspaceText|
            self.model().workspace_context(endpoint_id.deep_view(), workspace) == Some(name@);
        let ghost id = |workspace: WorkspaceText| workspace.workspace_id;
        proof {
            reveal(Seq::filter);
            assert(shown.take(0).filter(test).map_values(id) =~= Seq::empty());
            assert(ids.deep_view() =~= Seq::empty());
        }
        for i in 0..snapshot.workspaces.len()
            invariant
                self.wf(),
                shown == snapshot.workspaces.deep_view(),
                test == (|workspace: WorkspaceText|
                    self.model().workspace_context(endpoint_id.deep_view(), workspace) == Some(
                        name@,
                    )),
                id == (|workspace: WorkspaceText| workspace.workspace_id),
                ids.deep_view() == shown.take(i as int).filter(test).map_values(id),
        {
            let workspace = &snapshot.workspaces[i];
            let ghost so_far = shown.take(i as int);
            proof {
                reveal(Seq::filter);
                assert(shown.take(i + 1).drop_last() =~= so_far);
                assert(shown.take(i + 1).last() == workspace.deep_view());
            }
            let matches = match self.workspace_context(endpoint_id, workspace) {
                Some(context) => same(context, name),
                None => false,
            };
            let ghost ids_before = ids.deep_view();
            if matches {
                ids.push(workspace.workspace_id.clone());
                proof {
                    assert(ids.deep_view() =~= ids_before.push(workspace.workspace_id@));
                    assert(shown.take(i + 1).filter(test).map_values(id) =~= so_far.filter(
                        test,
                    ).map_values(id).push(workspace.workspace_id@));
                }
            }
        }
        proof {
            assert(shown.take(shown.len() as int) =~= shown);
        }
        ids
    }

    /// Notes a move of a workspace that is on its way to the server.
    pub fn set_pending(
        &mut self,
        endpoint_id: &ClientEndpointId,
        workspace_id: &str,
        context: Option<String>,
    )
        requires
            old(self).wf(),
        ensures
            final(self).wf(),
            final(self).model() == old(self).model().set_pending(
                workspace_key(endpoint_id.deep_view(), workspace_id@),
                context.deep_view(),
            ),
    {
        if let Some(name) = &context {
            self.learn(name.as_str());
        }
        self.pending.insert(Self::key(endpoint_id, workspace_id), context);
    }

    /// Drops a move that is no longer on its way.
    pub fn clear_pending(&mut self, endpoint_id: &ClientEndpointId, workspace_id: &str)
        requires
            old(self).wf(),
        ensures
            final(self).wf(),
            final(self).model() == old(self).model().clear_pending(
                workspace_key(endpoint_id.deep_view(), workspace_id@),
            ),
    {
        let endpoint = endpoint_id.storage_key();
        self.pending.remove(endpoint.as_str(), workspace_id);
    }
}

/// Keeps what belongs to another endpoint, or to a workspace that the snapshot shows. Returns
/// whether anything is gone.
fn retain_shown<V: DeepView>(
    table: &mut WorkspaceTable<V>,
    endpoint: &str,
    snapshot: &ClientShellSnapshot,
) -> (r: bool)
    requires
        old(table).wf(),
    ensures
        final(table).wf(),
        final(table).map() == kept(
            old(table).map(),
            |key: KeyText, value: V::V| key.0 != endpoint@ || snapshot.deep_view().shows(key.1),
        ),
        r == (final(table).map() != old(table).map()),
{
    let ghost before = table.map();
    let ghost test = |key: KeyText, value: V::V|
        key.0 != endpoint@ || snapshot.deep_view().shows(key.1);
    let mut removed = false;
    let mut i: usize = 0;
    while i < table.len()
        invariant
            i <= table.list().len(),
            table.wf(),
            test == (|key: KeyText, value: V::V|
                key.0 != endpoint@ || snapshot.deep_view().shows(key.1)),
            forall|j: int|
                0 <= j < i ==> test((#[trigger] table.list()[j]).0, table.list()[j].1),
            forall|key: KeyText| #[trigger]
                table.map().contains_key(key) ==> before.contains_key(key) && before[key]
                    == table.map()[key],
            forall|key: KeyText| #[trigger]
                before.contains_key(key) && test(key, before[key]) ==> table.map().contains_key(key),
            removed == (table.map() != before),
        decreases table.list().len() - i,
    {
        let entry = table.entry(i);
        let key = &entry.0;
        if same(key.0.as_str(), endpoint) && !snapshot.shows(key.1.as_str()) {
            proof {
                lemma_entry(table.list(), i as int);
                assert(before.contains_key(table.list()[i as int].0));
                assert(!table.map().remove(table.list()[i as int].0).contains_key(
                    table.list()[i as int].0,
                ));
            }
            table.remove_entry(i);
            removed = true;
        } else {
            i += 1;
        }
    }
    proof {
        let result = kept(before, test);
        assert forall|key: KeyText| table.map().contains_key(key) implies result.contains_key(
            key,
        ) by {
            let j = lemma_key(table.list(), key);
            lemma_entry(table.list(), j);
        }
        assert(table.map() =~= result);
    }
    removed
}

impl ContextState {
    /// Takes in one workspace of a snapshot. Returns whether what is saved changed.
    fn observe_workspace(
        &mut self,
        endpoint_id: &ClientEndpointId,
        boot_id: &String,
        workspace: &ClientShellWorkspace,
    ) -> (r: bool)
        requires
            old(self).wf(),
        ensures
            final(self).wf(),
            final(self).model() == old(self).model().observe_workspace(
                endpoint_id.deep_view(),
                boot_id@,
                workspace.deep_view(),
            ),
            r == !old(self).model().saves_as(final(self).model()),
    {
        let key = Self::key(endpoint_id, workspace.workspace_id.as_str());
        let ghost start = self.model();
        let ghost text = key.deep_view();
        match self.token_value(workspace) {
            Some(value) => {
                let new_name = self.learn(value);
                let unchanged = match self.assignments.get(key.0.as_str(), key.1.as_str()) {
                    Some(assignment) => same(assignment.context.as_str(), value) && same(
                        assignment.boot_id.as_str(),
                        boot_id.as_str(),
                    ),
                    None => false,
                };
                let confirmed = match self.pending.get(key.0.as_str(), key.1.as_str()) {
                    Some(Some(context)) => same(context.as_str(), value),
                    _ => false,
                };
                if confirmed {
                    self.pending.remove(key.0.as_str(), key.1.as_str());
                }
                let assignment = Assignment { context: value.to_owned(), boot_id: boot_id.clone() };
                proof {
                    if unchanged {
                        assert(start.assignments.insert(text, assignment.deep_view())
                            =~= start.assignments);
                    }
                }
                if !unchanged {
                    self.assignments.insert(key, assignment);
                }
                new_name || !unchanged
            },
            None => {
                let saved = match self.assignments.get(key.0.as_str(), key.1.as_str()) {
                    Some(assignment) => Some(
                        (assignment.context.clone(), same(assignment.boot_id.as_str(), boot_id.as_str())),
                    ),
                    None => None,
                };
                let (moving, cleared) = match self.pending.get(key.0.as_str(), key.1.as_str()) {
                    Some(Some(_)) => (true, false),
                    Some(None) => (false, true),
                    None => (false, false),
                };
                match saved {
                    Some((context, same_boot)) => {
                        if !same_boot {
                            self.queued_reports.push(
                                QueuedContextReport {
                                    endpoint_id: endpoint_id.clone(),
                                    workspace_id: workspace.workspace_id.clone(),
                                    context: Some(context.clone()),
                                },
                            );
                            self.pending.insert(
                                (key.0.clone(), key.1.clone()),
                                Some(context.clone()),
                            );
                            self.assignments.insert(
                                key,
                                Assignment { context, boot_id: boot_id.clone() },
                            );
                            proof {
                                assert(self.model().queued_reports =~= start.requeue(
                                    endpoint_id.deep_view(),
                                    workspace.workspace_id@,
                                    boot_id@,
                                ).queued_reports);
                                assert(self.model().assignments[text]
                                    != start.assignments[text]);
                            }
                            return true;
                        }
                        // Same server boot: the token was cleared on purpose, unless a move into
                        // a context is still in flight.
                        if cleared {
                            self.pending.remove(key.0.as_str(), key.1.as_str());
                        }
                        if moving {
                            return false;
                        }
                        self.assignments.remove(key.0.as_str(), key.1.as_str());
                        proof {
                            assert(start.assignments.contains_key(text));
                            assert(!self.model().assignments.contains_key(text));
                        }
                        true
                    },
                    None => {
                        if cleared {
                            self.pending.remove(key.0.as_str(), key.1.as_str());
                        }
                        proof {
                            assert(start.assignments.remove(text) =~= start.assignments);
                        }
                        false
                    },
                }
            },
        }
    }

    /// Takes in the workspaces of a snapshot. Returns whether what is saved changed.
    fn observe_workspaces(
        &mut self,
        endpoint_id: &ClientEndpointId,
        snapshot: &ClientShellSnapshot,
    ) -> (r: bool)
        requires
            old(self).wf(),
        ensures
            final(self).wf(),
            final(self).model() == old(self).model().observe_workspaces(
                endpoint_id.deep_view(),
                snapshot.boot_id@,
                snapshot.deep_view().workspaces,
            ),
            r == old(self).model().workspaces_change(
                endpoint_id.deep_view(),
                snapshot.boot_id@,
                snapshot.deep_view().workspaces,
            ),
    {
        let ghost start = self.model();
        let ghost endpoint = endpoint_id.deep_view();
        let ghost shown = snapshot.deep_view().workspaces;
        let ghost boot_id = snapshot.boot_id@;
        let mut changed = false;
        proof {
            assert(shown.take(0) =~= Seq::empty());
        }
        for i in 0..snapshot.workspaces.len()
            invariant
                self.wf(),
                endpoint == endpoint_id.deep_view(),
                shown == snapshot.workspaces.deep_view(),
                boot_id == snapshot.boot_id@,
                self.model() == start.observe_workspaces(endpoint, boot_id, shown.take(i as int)),
                changed == start.workspaces_change(endpoint, boot_id, shown.take(i as int)),
        {
            let workspace_changed = self.observe_workspace(
                endpoint_id,
                &snapshot.boot_id,
                &snapshot.workspaces[i],
            );
            proof {
                assert(shown.take(i + 1).drop_last() =~= shown.take(i as int));
                assert(shown.take(i + 1).last() == snapshot.workspaces@[i as int].deep_view());
                start.lemma_workspaces_change(endpoint, boot_id, shown, i as int);
            }
            changed = changed || workspace_changed;
        }
        proof {
            assert(shown.take(shown.len() as int) =~= shown);
        }
        changed
    }

    /// Drops what belongs to workspaces of an endpoint that its snapshot no longer shows.
    /// Returns whether what is saved changed.
    fn drop_closed(
        &mut self,
        endpoint_id: &ClientEndpointId,
        snapshot: &ClientShellSnapshot,
    ) -> (r: bool)
        requires
            old(self).wf(),
        ensures
            final(self).wf(),
            final(self).model() == old(self).model().retain_shown(
                endpoint_id.deep_view(),
                snapshot.deep_view(),
            ),
            r == !old(self).model().saves_as(final(self).model()),
    {
        let endpoint = endpoint_id.storage_key();
        let dropped = retain_shown(&mut self.assignments, endpoint.as_str(), snapshot);
        retain_shown(&mut self.pending, endpoint.as_str(), snapshot);
        dropped
    }

    /// Reconciles the state with a fresh snapshot of an endpoint. Returns whether what is saved
    /// changed. Queues a report for every workspace that lost its token to a server restart:
    /// the boot changed while the backup still holds a context.
    pub fn observe_snapshot(
        &mut self,
        endpoint_id: &ClientEndpointId,
        snapshot: &ClientShellSnapshot,
    ) -> (r: bool)
        requires
            old(self).wf(),
        ensures
            final(self).wf(),
            final(self).model() == old(self).model().observe_snapshot(
                endpoint_id.deep_view(),
                snapshot.deep_view(),
            ),
            r == old(self).model().snapshot_changes(
                endpoint_id.deep_view(),
                snapshot.deep_view(),
            ),
    {
        if !self.enabled() {
            return false;
        }
        let changed = self.observe_workspaces(endpoint_id, snapshot);
        let dropped = self.drop_closed(endpoint_id, snapshot);
        changed || dropped
    }
}

/// Puts another context where a pending move leads into `from`.
fn replace_pending(table: &mut WorkspaceTable<Option<String>>, from: &str, to: &Option<String>)
    requires
        old(table).wf(),
    ensures
        final(table).wf(),
        final(table).map() == old(table).map().map_values(
            |context: Option<Text>|
                if context == Some(from@) {
                    to.deep_view()
                } else {
                    context
                },
        ),
{
    let ghost before = table.list();
    let ghost f = |context: Option<Text>|
        if context == Some(from@) {
            to.deep_view()
        } else {
            context
        };
    let count = table.len();
    for i in 0..count
        invariant
            count == before.len(),
            table.list().len() == before.len(),
            f == (|context: Option<Text>|
                if context == Some(from@) {
                    to.deep_view()
                } else {
                    context
                }),
            forall|j: int|
                0 <= j < before.len() ==> (#[trigger] table.list()[j]).0 == before[j].0
                    && table.list()[j].1 == if j < i {
                    f(before[j].1)
                } else {
                    before[j].1
                },
    {
        let matches = match &table.entry(i).1 {
            Some(context) => same(context.as_str(), from),
            None => false,
        };
        proof {
            assert(table.list()[i as int].1 == before[i as int].1);
        }
        if matches {
            let context = match to {
                Some(name) => Some(name.clone()),
                None => None,
            };
            table.set_value(i, context);
        }
    }
    proof {
        lemma_map_values(before, table.list(), f);
    }
}

/// Puts another name where a backup names the context `from`.
fn replace_assigned(table: &mut WorkspaceTable<Assignment>, from: &str, to: &str)
    requires
        old(table).wf(),
    ensures
        final(table).wf(),
        final(table).map() == old(table).map().map_values(
            |assignment: AssignmentText|
                if assignment.context == from@ {
                    AssignmentText { context: to@, ..assignment }
                } else {
                    assignment
                },
        ),
{
    let ghost before = table.list();
    let ghost f = |assignment: AssignmentText|
        if assignment.context == from@ {
            AssignmentText { context: to@, ..assignment }
        } else {
            assignment
        };
    let count = table.len();
    for i in 0..count
        invariant
            count == before.len(),
            table.list().len() == before.len(),
            f == (|assignment: AssignmentText|
                if assignment.context == from@ {
                    AssignmentText { context: to@, ..assignment }
                } else {
                    assignment
                }),
            forall|j: int|
                0 <= j < before.len() ==> (#[trigger] table.list()[j]).0 == before[j].0
                    && table.list()[j].1 == if j < i {
                    f(before[j].1)
                } else {
                    before[j].1
                },
    {
        let assignment = &table.entry(i).1;
        let matches = same(assignment.context.as_str(), from);
        let boot_id = assignment.boot_id.clone();
        proof {
            assert(table.list()[i as int].1 == before[i as int].1);
        }
        if matches {
            table.set_value(i, Assignment { context: to.to_owned(), boot_id });
        }
    }
    proof {
        lemma_map_values(before, table.list(), f);
    }
}

/// Drops the backups that name a context.
fn drop_assigned(table: &mut WorkspaceTable<Assignment>, name: &str)
    requires
        old(table).wf(),
    ensures
        final(table).wf(),
        final(table).map() == kept(
            old(table).map(),
            |key: KeyText, assignment: AssignmentText| assignment.context != name@,
        ),
{
    let ghost before = table.map();
    let ghost test = |key: KeyText, assignment: AssignmentText| assignment.context != name@;
    let mut i: usize = 0;
    while i < table.len()
        invariant
            i <= table.list().len(),
            table.wf(),
            test == (|key: KeyText, assignment: AssignmentText| assignment.context != name@),
            forall|j: int|
                0 <= j < i ==> test((#[trigger] table.list()[j]).0, table.list()[j].1),
            forall|key: KeyText| #[trigger]
                table.map().contains_key(key) ==> before.contains_key(key) && before[key]
                    == table.map()[key],
            forall|key: KeyText| #[trigger]
                before.contains_key(key) && test(key, before[key]) ==> table.map().contains_key(key),
        decreases table.list().len() - i,
    {
        proof {
            lemma_entry(table.list(), i as int);
        }
        if same(table.entry(i).1.context.as_str(), name) {
            table.remove_entry(i);
        } else {
            i += 1;
        }
    }
    proof {
        let result = kept(before, test);
        assert forall|key: KeyText| table.map().contains_key(key) implies result.contains_key(
            key,
        ) by {
            let j = lemma_key(table.list(), key);
            lemma_entry(table.list(), j);
        }
        assert(table.map() =~= result);
    }
}

impl ContextState {
    /// Forgets a context. The active tab falls back to the default when it stood for it. Returns
    /// whether the context was known.
    pub fn remove_known(&mut self, name: &str) -> (r: bool)
        requires
            old(self).wf(),
        ensures
            final(self).wf(),
            final(self).model() == old(self).model().remove_known(name@),
            r == old(self).model().known.contains(name@),
    {
        let ghost start = self.model();
        let removed = self.known.remove(name);
        if self.active.is_named(name) {
            self.active = ActiveContext::Default;
        }
        replace_pending(&mut self.pending, name, &None);
        drop_assigned(&mut self.assignments, name);
        proof {
            assert(self.model().pending =~= start.remove_known(name@).pending);
        }
        removed
    }

    /// Gives a context another name, everywhere. Returns whether it did: the name has to be
    /// new to the context and free of built-in labels, and the context has to be known.
    pub fn rename_known(&mut self, old_name: &str, new_name: &str) -> (r: bool)
        requires
            old(self).wf(),
        ensures
            final(self).wf(),
            final(self).model() == old(self).model().rename_known(old_name@, new_name@),
            r == (old(self).model().renamed_to(old_name@, new_name@) is Some),
    {
        let ghost start = self.model();
        let name = match Self::normalize_name(new_name) {
            Some(name) => name,
            None => {
                return false;
            },
        };
        if same(old_name, name.as_str()) || self.is_reserved_name(name.as_str())
            || !self.known.contains(old_name) {
            return false;
        }
        self.known.remove(old_name);
        self.known.insert(name.clone());
        if self.active.is_named(old_name) {
            self.active = ActiveContext::Named(name.clone());
        }
        let target = Some(name.clone());
        replace_pending(&mut self.pending, old_name, &target);
        replace_assigned(&mut self.assignments, old_name, name.as_str());
        proof {
            assert(self.model().pending =~= start.replace_name(old_name@, name@).pending);
            assert(self.model() =~= start.replace_name(old_name@, name@));
        }
        true
    }

    /// Takes over another configuration.
    pub fn apply_config(&mut self, token_key: Option<String>, default_name: &str)
        requires
            old(self).wf(),
        ensures
            final(self).wf(),
            final(self).model() == old(self).model().apply_config(
                token_key.deep_view(),
                default_name@,
            ),
    {
        self.token_key = token_key;
        if !same(self.default_name.as_str(), default_name) {
            self.default_name = default_name.to_owned();
            self.known.remove(default_name);
            if self.active.is_named(default_name) {
                self.active = ActiveContext::Default;
            }
        }
    }

    /// Hands out the reports for an endpoint, oldest first. Reports for others stay.
    pub fn take_queued_reports(&mut self, endpoint_id: &ClientEndpointId) -> (r: Vec<
        QueuedContextReport,
    >)
        requires
            old(self).wf(),
        ensures
            final(self).wf(),
            r.deep_view() == old(self).model().reports_for(endpoint_id.deep_view()),
            final(self).model() == old(self).model().without_reports_for(endpoint_id.deep_view()),
    {
        let ghost start = self.model();
        let ghost endpoint = endpoint_id.deep_view();
        let ghost all = self.queued_reports.deep_view();
        let ghost its = |report: ReportText| report.endpoint == endpoint;
        let ghost others = |report: ReportText| report.endpoint != endpoint;
        let mut queued: Vec<QueuedContextReport> = Vec::new();
        std::mem::swap(&mut queued, &mut self.queued_reports);
        let ghost reports = queued@;
        let mut mine: Vec<QueuedContextReport> = Vec::new();
        let mut rest: Vec<QueuedContextReport> = Vec::new();
        proof {
            reveal(Seq::filter);
            assert(mine.deep_view() =~= all.take(0).filter(its));
            assert(rest.deep_view() =~= all.take(0).filter(others));
        }
        for report in it: queued
            invariant
                it.seq() == reports,
                endpoint == endpoint_id.deep_view(),
                all.len() == reports.len(),
                forall|j: int| 0 <= j < all.len() ==> #[trigger] all[j] == reports[j].deep_view(),
                its == (|report: ReportText| report.endpoint == endpoint),
                others == (|report: ReportText| report.endpoint != endpoint),
                mine.deep_view() == all.take(it.index()).filter(its),
                rest.deep_view() == all.take(it.index()).filter(others),
        {
            let ghost mine_before = mine.deep_view();
            let ghost rest_before = rest.deep_view();
            proof {
                reveal(Seq::filter);
                assert(all.take(it.index() + 1).drop_last() =~= all.take(it.index()));
                assert(all.take(it.index() + 1).last() == report.deep_view());
            }
            if report.endpoint_id.same_endpoint(endpoint_id) {
                mine.push(report);
                proof {
                    assert(mine.deep_view() =~= mine_before.push(report.deep_view()));
                }
            } else {
                rest.push(report);
                proof {
                    assert(rest.deep_view() =~= rest_before.push(report.deep_view()));
                }
            }
        }
        self.queued_reports = rest;
        proof {
            assert(all.take(all.len() as int) =~= all);
        }
        mine
    }
}

/// The place `delta` places from `current` in a ring of `count` places.
pub fn ring_step(current: usize, delta: isize, count: usize) -> (r: usize)
    requires
        current < count,
    ensures
        r == (current + delta) % (count as int),
{
    if delta >= 0 {
        let whole: usize = delta as usize;
        let forward: usize = whole % count;
        let room: usize = count - current;
        let r: usize = if forward < room { current + forward } else { forward - room };
        proof {
            let q = whole as int / count as int;
            let turns = q + if forward < room { 0int } else { 1int };
            vstd::arithmetic::div_mod::lemma_fundamental_div_mod(whole as int, count as int);
            assert(count * q == q * count) by (nonlinear_arith);
            assert((q + 1) * count == q * count + count) by (nonlinear_arith);
            lemma_ring(current + delta, count as int, turns, r as int);
        }
        r
    } else {
        let whole: usize = (-(delta + 1)) as usize;
        let back: usize = whole % count;
        let r: usize = if back < current { current - back - 1 } else { current + (count - 1 - back) };
        proof {
            let q = whole as int / count as int;
            let turns = -q - if back < current { 0int } else { 1int };
            vstd::arithmetic::div_mod::lemma_fundamental_div_mod(whole as int, count as int);
            assert(count * q == q * count) by (nonlinear_arith);
            assert((-q) * count == -(q * count)) by (nonlinear_arith);
            assert((-q - 1) * count == -(q * count) - count) by (nonlinear_arith);
            lemma_ring(current + delta, count as int, turns, r as int);
        }
        r
    }
}

/// Whole turns of a ring leave the place as it is.
proof fn lemma_ring(place: int, count: int, turns: int, r: int)
    requires
        0 <= r < count,
        place == turns * count + r,
    ensures
        r == place % count,
{
    vstd::arithmetic::div_mod::lemma_fundamental_div_mod_converse(place, count, turns, r);
}

impl ContextState {
    /// The known contexts, in order.
    pub fn known(&self) -> (r: Vec<&str>)
        requires
            self.wf(),
        ensures
            r.deep_view() == in_order(self.model().known),
    {
        proof {
            self.known.lemma_list();
        }
        let mut names: Vec<&str> = Vec::new();
        let ghost list = self.known.list();
        let count = self.known.len();
        for i in 0..count
            invariant
                list == self.known.list(),
                count == list.len(),
                names.deep_view() =~= list.take(i as int),
        {
            let ghost before = names.deep_view();
            names.push(self.known.name(i));
            proof {
                assert(names.deep_view() =~= before.push(list[i as int]));
            }
        }
        proof {
            assert(list.take(list.len() as int) =~= list);
        }
        names
    }

    /// The tab row: the cell for a new context, the default tab, every known context in order,
    /// and the tab that shows everything.
    pub fn tabs(&self) -> (r: Vec<ContextTab>)
        requires
            self.wf(),
        ensures
            r.deep_view() == self.model().tabs(),
    {
        proof {
            self.known.lemma_list();
        }
        let mut tabs: Vec<ContextTab> = Vec::new();
        tabs.push(ContextTab::New);
        tabs.push(ContextTab::Default);
        let ghost list = self.known.list();
        let ghost named = list.map_values(|name: Text| TabText::Named(name));
        let ghost first = seq![TabText::New, TabText::Default];
        let count = self.known.len();
        for i in 0..count
            invariant
                list == self.known.list(),
                count == list.len(),
                named == list.map_values(|name: Text| TabText::Named(name)),
                first == seq![TabText::New, TabText::Default],
                tabs.deep_view() =~= first + named.take(i as int),
        {
            let ghost before = tabs.deep_view();
            tabs.push(ContextTab::Named(self.known.name(i).to_owned()));
            proof {
                assert(tabs.deep_view() =~= before.push(named[i as int]));
            }
        }
        let ghost before = tabs.deep_view();
        tabs.push(ContextTab::All);
        proof {
            assert(named.take(named.len() as int) =~= named);
            assert(tabs.deep_view() =~= before.push(TabText::All));
            assert(tabs.deep_view() =~= first + named + seq![TabText::All]);
        }
        tabs
    }

    /// What can be selected, in the order of the tabs.
    pub fn selectable(&self) -> (r: Vec<ActiveContext>)
        requires
            self.wf(),
        ensures
            r.deep_view() == self.model().selectable(),
    {
        let tabs = self.tabs();
        let ghost all = self.model().selectable();
        let mut targets: Vec<ActiveContext> = Vec::new();
        proof {
            assert(tabs.deep_view().len() == all.len() + 1);
        }
        for i in 0..tabs.len()
            invariant
                tabs.deep_view() == self.model().tabs(),
                all == self.model().selectable(),
                tabs@.len() == all.len() + 1,
                i >= 1 ==> targets.deep_view() =~= all.take(i - 1),
                i == 0 ==> targets@.len() == 0,
        {
            let ghost before = targets.deep_view();
            let tab = &tabs[i];
            proof {
                assert(tab.deep_view() == self.model().tabs()[i as int]);
                if i > 0 {
                    assert(tab.deep_view().selects() == Some(all[i - 1]));
                }
            }
            if let Some(selection) = tab.to_active() {
                targets.push(selection);
                proof {
                    assert(targets.deep_view() =~= before.push(all[i - 1]));
                }
            }
        }
        proof {
            assert(all.take(all.len() as int) =~= all);
        }
        targets
    }

    /// Makes the tab active that lies `delta` places from the active one, counted round. Returns
    /// whether the selection changed.
    pub fn cycle_active(&mut self, delta: isize) -> (r: bool)
        requires
            old(self).wf(),
        ensures
            final(self).wf(),
            final(self).model() == old(self).model().cycle(delta as int),
            r == (final(self).model().active != old(self).model().active),
    {
        let targets = self.selectable();
        let ghost all = self.model().selectable();
        proof {
            self.lemma_valid();
            lemma_selectable(self.model());
        }
        let mut current: usize = 0;
        while current < targets.len() && !targets[current].same_selection(&self.active)
            invariant
                self.wf(),
                all == self.model().selectable(),
                targets.deep_view() == all,
                all.contains(self.model().active),
                current <= targets@.len(),
                forall|j: int| 0 <= j < current ==> #[trigger] all[j] != self.model().active,
            decreases targets.len() - current,
        {
            proof {
                assert(all[current as int] == targets@[current as int].deep_view());
            }
            current += 1;
        }
        proof {
            let place = all.index_of(self.model().active);
            assert(place >= current);
            assert(all[current as int] == targets@[current as int].deep_view());
            assert(all[current as int] == all[place]);
        }
        let next = ring_step(current, delta, targets.len());
        let target = targets[next].clone();
        proof {
            assert(all[next as int] == targets@[next as int].deep_view());
        }
        self.set_active(target)
    }

    /// A view on the state for one endpoint, where contexts are in use.
    pub fn view<'a>(&'a self, endpoint_id: &'a ClientEndpointId) -> (r: Option<ContextView<'a>>)
        requires
            self.wf(),
        ensures
            r is Some <==> self.model().enabled(),
            r matches Some(view) ==> view.wf() && view.model() == self.model() && view.endpoint()
                == endpoint_id.deep_view(),
    {
        if self.enabled() {
            Some(ContextView { state: self, endpoint_id })
        } else {
            None
        }
    }

    /// The moves that are on their way to the server.
    pub fn pending(&self) -> (r: &WorkspaceTable<Option<String>>)
        requires
            self.wf(),
        ensures
            r.wf(),
            r.map() == self.model().pending,
    {
        &self.pending
    }

    /// The contexts that were last confirmed.
    pub fn assignments(&self) -> (r: &WorkspaceTable<Assignment>)
        requires
            self.wf(),
        ensures
            r.wf(),
            r.map() == self.model().assignments,
    {
        &self.assignments
    }
}

impl ContextState {
    /// Takes over one saved backup.
    fn restore_workspace(&mut self, entry: &ClientWorkspaceContext)
        requires
            old(self).wf(),
        ensures
            final(self).wf(),
            final(self).model() == old(self).model().restore_workspace(entry.deep_view()),
    {
        if let Some(context) = Self::normalize_name(entry.context.as_str()) {
            self.learn(context.as_str());
            self.assignments.insert(
                (entry.endpoint.clone(), entry.workspace_id.clone()),
                Assignment { context, boot_id: entry.boot_id.clone() },
            );
        }
    }

    /// Takes over the saved active tab.
    fn restore_active(&mut self, saved: &Option<ClientContextSelection>)
        requires
            old(self).wf(),
        ensures
            final(self).wf(),
            final(self).model() == old(self).model().restore_active(saved.deep_view()),
    {
        match saved {
            Some(ClientContextSelection::All) => {
                self.active = ActiveContext::All;
            },
            Some(ClientContextSelection::Named { name }) => {
                if let Some(name) = Self::normalize_name(name.as_str()) {
                    self.set_active(ActiveContext::Named(name));
                }
            },
            Some(ClientContextSelection::Default) | None => {},
        }
    }

    /// The state of a client that starts with saved preferences, or without any.
    pub fn new(
        token_key: Option<String>,
        default_name: &str,
        saved: Option<&ClientContextPreferences>,
    ) -> (r: Self)
        ensures
            r.wf(),
            r.model() == ContextModel::restored(
                token_key.deep_view(),
                default_name@,
                saved.deep_view(),
            ),
    {
        let mut state = ContextState {
            token_key,
            default_name: default_name.to_owned(),
            active: ActiveContext::Default,
            known: NameSet::new(),
            pending: WorkspaceTable::new(),
            assignments: WorkspaceTable::new(),
            queued_reports: Vec::new(),
        };
        let ghost fresh = ContextModel::fresh(token_key.deep_view(), default_name@);
        proof {
            assert(state.model() =~= fresh);
        }
        let saved = match saved {
            Some(saved) => saved,
            None => {
                return state;
            },
        };
        let ghost names = saved.known.deep_view();
        proof {
            assert(names.take(0) =~= Seq::empty());
        }
        for i in 0..saved.known.len()
            invariant
                state.wf(),
                names == saved.known.deep_view(),
                state.model() == fresh.add_all(names.take(i as int)),
        {
            state.add_known(saved.known[i].as_str());
            proof {
                assert(names.take(i + 1).drop_last() =~= names.take(i as int));
                assert(names.take(i + 1).last() == saved.known@[i as int]@);
            }
        }
        let ghost with_names = fresh.add_all(names);
        let ghost entries = saved.workspaces.deep_view();
        proof {
            assert(names.take(names.len() as int) =~= names);
            assert(entries.take(0) =~= Seq::empty());
        }
        for i in 0..saved.workspaces.len()
            invariant
                state.wf(),
                entries == saved.workspaces.deep_view(),
                state.model() == with_names.restore_workspaces(entries.take(i as int)),
        {
            state.restore_workspace(&saved.workspaces[i]);
            proof {
                assert(entries.take(i + 1).drop_last() =~= entries.take(i as int));
                assert(entries.take(i + 1).last() == saved.workspaces@[i as int].deep_view());
            }
        }
        proof {
            assert(entries.take(entries.len() as int) =~= entries);
        }
        state.restore_active(&saved.active);
        state
    }

    /// The confirmed contexts in the form in which they are saved.
    fn saved_workspaces(&self) -> (r: Vec<ClientWorkspaceContext>)
        requires
            self.wf(),
        ensures
            r.deep_view() == self.model().saved().workspaces,
    {
        proof {
            self.assignments.lemma_list();
        }
        let ghost list = self.assignments.list();
        let ghost all = self.model().saved().workspaces;
        let mut workspaces: Vec<ClientWorkspaceContext> = Vec::new();
        let count = self.assignments.len();
        for i in 0..count
            invariant
                list == self.assignments.list(),
                count == list.len(),
                all.len() == list.len(),
                forall|j: int|
                    0 <= j < list.len() ==> #[trigger] all[j] == (SavedContext {
                        endpoint: list[j].0.0,
                        boot_id: list[j].1.boot_id,
                        workspace_id: list[j].0.1,
                        context: list[j].1.context,
                    }),
                workspaces.deep_view() =~= all.take(i as int),
        {
            let ghost before = workspaces.deep_view();
            let (key, assignment) = self.assignments.entry(i);
            let entry = ClientWorkspaceContext {
                endpoint: key.0.clone(),
                boot_id: assignment.boot_id.clone(),
                workspace_id: key.1.clone(),
                context: assignment.context.clone(),
            };
            proof {
                assert(entry.deep_view() == all[i as int]);
            }
            workspaces.push(entry);
            proof {
                assert(workspaces.deep_view() =~= before.push(all[i as int]));
            }
        }
        proof {
            assert(all.take(all.len() as int) =~= all);
        }
        workspaces
    }

    /// What there is to save of the state, if anything: names in order, backups in the order of
    /// endpoint and workspace.
    pub fn to_preferences(&self) -> (r: Option<ClientContextPreferences>)
        requires
            self.wf(),
        ensures
            r.deep_view() == self.model().to_preferences(),
    {
        let active = match &self.active {
            ActiveContext::Default => None,
            ActiveContext::All => Some(ClientContextSelection::All),
            ActiveContext::Named(name) => Some(
                ClientContextSelection::Named { name: name.clone() },
            ),
        };
        proof {
            self.known.lemma_list();
        }
        let ghost list = self.known.list();
        let mut known: Vec<String> = Vec::new();
        let count = self.known.len();
        for i in 0..count
            invariant
                list == self.known.list(),
                count == list.len(),
                known.deep_view() =~= list.take(i as int),
        {
            let ghost before = known.deep_view();
            known.push(self.known.name(i).to_owned());
            proof {
                assert(known.deep_view() =~= before.push(list[i as int]));
            }
        }
        proof {
            assert(list.take(list.len() as int) =~= list);
            if list.len() == 0 {
                assert(self.model().known =~= Set::empty());
            } else {
                assert(self.model().known.contains(list[0]));
            }
            assert(self.model().assignments.is_empty() == (self.model().assignments =~= Map::<
                KeyText,
                AssignmentText,
            >::empty()));
        }
        if active.is_none() && known.len() == 0 && self.assignments.is_empty() {
            return None;
        }
        let workspaces = self.saved_workspaces();
        Some(ClientContextPreferences { active, known, workspaces })
    }
}

/// Read-only view for filters, with the endpoint whose snapshot is being looked at.
#[derive(Clone, Copy)]
pub struct ContextView<'a> {
    state: &'a ContextState,
    endpoint_id: &'a ClientEndpointId,
}

impl ContextView<'_> {
    /// What the state holds.
    pub closed spec fn model(&self) -> ContextModel {
        self.state.model()
    }

    /// The endpoint.
    pub closed spec fn endpoint(&self) -> EndpointText {
        self.endpoint_id.deep_view()
    }

    /// The state is well formed.
    pub closed spec fn wf(&self) -> bool {
        self.state.wf()
    }

    /// Whether the active tab shows a workspace.
    pub fn workspace_visible(&self, workspace: &ClientShellWorkspace) -> (r: bool)
        requires
            self.wf(),
        ensures
            r == self.model().workspace_visible(self.endpoint(), workspace.deep_view()),
    {
        self.state.workspace_visible(self.endpoint_id, workspace)
    }

    /// Whether the snapshot has a workspace with this id, and the active tab shows it.
    pub fn workspace_id_visible(
        &self,
        snapshot: &ClientShellSnapshot,
        workspace_id: &str,
    ) -> (r: bool)
        requires
            self.wf(),
        ensures
            r == self.model().workspace_id_visible(
                self.endpoint(),
                snapshot.deep_view().workspaces,
                workspace_id@,
            ),
    {
        let ghost shown = snapshot.deep_view().workspaces;
        proof {
            assert(shown.skip(0) =~= shown);
        }
        for i in 0..snapshot.workspaces.len()
            invariant
                self.wf(),
                shown == snapshot.workspaces.deep_view(),
                self.model().workspace_id_visible(self.endpoint(), shown, workspace_id@)
                    == self.model().workspace_id_visible(
                    self.endpoint(),
                    shown.skip(i as int),
                    workspace_id@,
                ),
        {
            let workspace = &snapshot.workspaces[i];
            proof {
                assert(shown.skip(i as int)[0] == workspace.deep_view());
                assert(shown.skip(i as int).drop_first() =~= shown.skip(i + 1));
            }
            if same(workspace.workspace_id.as_str(), workspace_id) {
                return self.workspace_visible(workspace);
            }
        }
        false
    }
}

} // verus!
