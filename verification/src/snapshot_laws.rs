//! Laws on what snapshots make of the context state.

use crate::laws::law_known_contexts_have_tabs;
use crate::model::{workspace_key, AssignmentText, ContextModel, ReportText, TabText};
use crate::protocol::lemma_storage_key_injective;
use crate::protocol::{EndpointText, SnapshotText, WorkspaceText};
use crate::table::KeyText;
use crate::text::Text;
use vstd::prelude::*;

verus! {

/// Whether one of the workspaces has this id.
spec fn among(workspaces: Seq<WorkspaceText>, workspace_id: Text) -> bool {
    exists|i: int|
        0 <= i < workspaces.len() && #[trigger] workspaces[i].workspace_id == workspace_id
}

/// A workspace of a snapshot changes nothing but the state of that workspace, the known contexts
/// and the reports to its endpoint.
proof fn lemma_one(
    state: ContextModel,
    endpoint: EndpointText,
    boot_id: Text,
    workspace: WorkspaceText,
)
    ensures
        ({
            let key = workspace_key(endpoint, workspace.workspace_id);
            let after = state.observe_workspace(endpoint, boot_id, workspace);
            &&& after.token_key == state.token_key
            &&& after.default_name == state.default_name
            &&& after.active == state.active
            &&& after.known == match state.token_value(workspace) {
                Some(value) => state.known_with(value),
                None => state.known,
            }
            &&& forall|other: KeyText|
                other != key ==> #[trigger] after.pending.get(other) == state.pending.get(other)
            &&& forall|other: KeyText|
                other != key ==> #[trigger] after.assignments.get(other) == state.assignments.get(
                    other,
                )
        }),
{
}

/// Workspaces of a snapshot leave the state of other workspaces alone.
proof fn lemma_frame(
    state: ContextModel,
    endpoint: EndpointText,
    boot_id: Text,
    workspaces: Seq<WorkspaceText>,
)
    ensures
        ({
            let after = state.observe_workspaces(endpoint, boot_id, workspaces);
            &&& after.token_key == state.token_key
            &&& after.default_name == state.default_name
            &&& after.active == state.active
            &&& state.known.subset_of(after.known)
            &&& forall|key: KeyText|
                key.0 != endpoint.storage_key() || !among(workspaces, key.1) ==> {
                    &&& #[trigger] after.pending.get(key) == state.pending.get(key)
                }
            &&& forall|key: KeyText|
                key.0 != endpoint.storage_key() || !among(workspaces, key.1) ==> {
                    &&& #[trigger] after.assignments.get(key) == state.assignments.get(key)
                }
        }),
    decreases workspaces.len(),
{
    if workspaces.len() > 0 {
        let short = workspaces.drop_last();
        let workspace = workspaces.last();
        lemma_frame(state, endpoint, boot_id, short);
        let before = state.observe_workspaces(endpoint, boot_id, short);
        lemma_one(before, endpoint, boot_id, workspace);
        let after = state.observe_workspaces(endpoint, boot_id, workspaces);
        let own = workspace_key(endpoint, workspace.workspace_id);
        assert forall|key: KeyText|
            key.0 != endpoint.storage_key() || !among(workspaces, key.1) implies key != own && (
        key.0 != endpoint.storage_key() || !among(short, key.1)) by {
            assert(workspaces[workspaces.len() - 1].workspace_id == workspace.workspace_id);
            if among(short, key.1) {
                let i = choose|i: int|
                    0 <= i < short.len() && #[trigger] short[i].workspace_id == key.1;
                assert(workspaces[i].workspace_id == key.1);
            }
        }
    }
}

/// A snapshot without its last workspace.
spec fn shorter(snapshot: SnapshotText) -> SnapshotText {
    SnapshotText { workspaces: snapshot.workspaces.drop_last(), ..snapshot }
}

/// If no id occurs twice, none does without the last workspace, whose id is not among the others.
proof fn lemma_shorter(snapshot: SnapshotText)
    requires
        snapshot.distinct(),
        snapshot.workspaces.len() > 0,
    ensures
        shorter(snapshot).distinct(),
        !among(shorter(snapshot).workspaces, snapshot.workspaces.last().workspace_id),
{
    let all = snapshot.workspaces;
    let short = all.drop_last();
    assert forall|i: int, j: int| 0 <= i < j < short.len() implies #[trigger] short[i].workspace_id
        != #[trigger] short[j].workspace_id by {
        assert(all[i].workspace_id != all[j].workspace_id);
    }
    assert forall|i: int| 0 <= i < short.len() implies #[trigger] short[i].workspace_id
        != all.last().workspace_id by {
        assert(all[i].workspace_id != all[all.len() - 1].workspace_id);
    }
}

/// Where no id occurs twice, each workspace of a snapshot has the effect on its own state that it
/// would have alone.
proof fn lemma_each(
    state: ContextModel,
    endpoint: EndpointText,
    snapshot: SnapshotText,
    i: int,
)
    requires
        snapshot.distinct(),
        0 <= i < snapshot.workspaces.len(),
    ensures
        ({
            let workspace = snapshot.workspaces[i];
            let key = workspace_key(endpoint, workspace.workspace_id);
            let after = state.observe_workspaces(
                endpoint,
                snapshot.boot_id,
                snapshot.workspaces,
            );
            let alone = state.observe_workspace(endpoint, snapshot.boot_id, workspace);
            &&& after.pending.get(key) == alone.pending.get(key)
            &&& after.assignments.get(key) == alone.assignments.get(key)
            &&& alone.known.subset_of(after.known)
        }),
    decreases snapshot.workspaces.len(),
{
    let short = shorter(snapshot);
    let last = snapshot.workspaces.last();
    let workspace = snapshot.workspaces[i];
    let key = workspace_key(endpoint, workspace.workspace_id);
    let before = state.observe_workspaces(endpoint, snapshot.boot_id, short.workspaces);
    lemma_shorter(snapshot);
    lemma_frame(state, endpoint, snapshot.boot_id, short.workspaces);
    lemma_one(before, endpoint, snapshot.boot_id, last);
    lemma_one(state, endpoint, snapshot.boot_id, workspace);
    if i < short.workspaces.len() {
        lemma_each(state, endpoint, short, i);
        assert(short.workspaces[i] == workspace);
        assert(workspace.workspace_id != last.workspace_id);
    } else {
        assert(before.pending.get(key) == state.pending.get(key));
        assert(before.assignments.get(key) == state.assignments.get(key));
        assert(before.token_value(workspace) == state.token_value(workspace));
    }
}

/// What is kept of the state of one workspace after a snapshot.
proof fn lemma_retained(
    state: ContextModel,
    endpoint: EndpointText,
    snapshot: SnapshotText,
    key: KeyText,
)
    ensures
        ({
            let after = state.retain_shown(endpoint, snapshot);
            if key.0 != endpoint.storage_key() || snapshot.shows(key.1) {
                &&& after.pending.get(key) == state.pending.get(key)
                &&& after.assignments.get(key) == state.assignments.get(key)
            } else {
                &&& after.pending.get(key) is None
                &&& after.assignments.get(key) is None
            }
        }),
{
}

/// The state of one workspace after a snapshot that shows it, where no id occurs twice.
proof fn lemma_shown(
    state: ContextModel,
    endpoint: EndpointText,
    snapshot: SnapshotText,
    i: int,
)
    requires
        state.enabled(),
        snapshot.distinct(),
        0 <= i < snapshot.workspaces.len(),
    ensures
        ({
            let workspace = snapshot.workspaces[i];
            let key = workspace_key(endpoint, workspace.workspace_id);
            let after = state.observe_snapshot(endpoint, snapshot);
            let alone = state.observe_workspace(endpoint, snapshot.boot_id, workspace);
            &&& after.pending.get(key) == alone.pending.get(key)
            &&& after.assignments.get(key) == alone.assignments.get(key)
            &&& alone.known.subset_of(after.known)
            &&& after.token_value(workspace) == state.token_value(workspace)
        }),
{
    let workspace = snapshot.workspaces[i];
    let key = workspace_key(endpoint, workspace.workspace_id);
    let observed = state.observe_workspaces(endpoint, snapshot.boot_id, snapshot.workspaces);
    lemma_each(state, endpoint, snapshot, i);
    lemma_frame(state, endpoint, snapshot.boot_id, snapshot.workspaces);
    assert(snapshot.shows(workspace.workspace_id));
    lemma_retained(observed, endpoint, snapshot, key);
}

/// A snapshot of one endpoint never touches the workspaces of another: their moves, their backups
/// and the reports to their endpoint stay. The active tab stays, and so does what is known.
pub proof fn law_snapshots_leave_other_endpoints_alone(
    state: ContextModel,
    endpoint: EndpointText,
    snapshot: SnapshotText,
    other: EndpointText,
    workspace: WorkspaceText,
)
    requires
        other != endpoint,
    ensures
        ({
            let after = state.observe_snapshot(endpoint, snapshot);
            let key = workspace_key(other, workspace.workspace_id);
            &&& after.pending.get(key) == state.pending.get(key)
            &&& after.assignments.get(key) == state.assignments.get(key)
            &&& after.workspace_context(other, workspace) == state.workspace_context(
                other,
                workspace,
            )
            &&& after.workspace_visible(other, workspace) == state.workspace_visible(
                other,
                workspace,
            )
            &&& after.reports_for(other) == state.reports_for(other)
            &&& after.active == state.active
            &&& state.known.subset_of(after.known)
        }),
{
    lemma_storage_key_injective(endpoint, other);
    if state.enabled() {
        let observed = state.observe_workspaces(endpoint, snapshot.boot_id, snapshot.workspaces);
        let key = workspace_key(other, workspace.workspace_id);
        lemma_frame(state, endpoint, snapshot.boot_id, snapshot.workspaces);
        lemma_retained(observed, endpoint, snapshot, key);
        lemma_other_reports(state, endpoint, snapshot.boot_id, snapshot.workspaces, other);
    }
}

/// Workspaces of a snapshot queue no reports to other endpoints.
proof fn lemma_other_reports(
    state: ContextModel,
    endpoint: EndpointText,
    boot_id: Text,
    workspaces: Seq<WorkspaceText>,
    other: EndpointText,
)
    requires
        other != endpoint,
    ensures
        state.observe_workspaces(endpoint, boot_id, workspaces).reports_for(other)
            == state.reports_for(other),
    decreases workspaces.len(),
{
    if workspaces.len() > 0 {
        let short = workspaces.drop_last();
        lemma_other_reports(state, endpoint, boot_id, short, other);
        let before = state.observe_workspaces(endpoint, boot_id, short);
        let after = state.observe_workspaces(endpoint, boot_id, workspaces);
        if after.queued_reports != before.queued_reports {
            reveal(Seq::filter);
            assert(after.queued_reports.drop_last() =~= before.queued_reports);
        }
    }
}

/// A workspace that the snapshot of its endpoint no longer shows is forgotten.
pub proof fn law_closed_workspaces_are_forgotten(
    state: ContextModel,
    endpoint: EndpointText,
    snapshot: SnapshotText,
    workspace_id: Text,
)
    requires
        state.enabled(),
        !snapshot.shows(workspace_id),
    ensures
        ({
            let after = state.observe_snapshot(endpoint, snapshot);
            let key = workspace_key(endpoint, workspace_id);
            !after.pending.contains_key(key) && !after.assignments.contains_key(key)
        }),
{
}

/// After workspaces of a snapshot each backup among them is from the boot of the snapshot.
proof fn lemma_boot(
    state: ContextModel,
    endpoint: EndpointText,
    boot_id: Text,
    workspaces: Seq<WorkspaceText>,
    workspace_id: Text,
)
    requires
        among(workspaces, workspace_id),
    ensures
        ({
            let after = state.observe_workspaces(endpoint, boot_id, workspaces);
            let key = workspace_key(endpoint, workspace_id);
            after.assignments.contains_key(key) ==> after.assignments[key].boot_id == boot_id
        }),
    decreases workspaces.len(),
{
    let short = workspaces.drop_last();
    let last = workspaces.last();
    let before = state.observe_workspaces(endpoint, boot_id, short);
    let after = before.observe_workspace(endpoint, boot_id, last);
    let key = workspace_key(endpoint, workspace_id);
    if last.workspace_id != workspace_id {
        let i = choose|i: int|
            0 <= i < workspaces.len() && #[trigger] workspaces[i].workspace_id == workspace_id;
        assert(short[i].workspace_id == workspace_id);
        lemma_boot(state, endpoint, boot_id, short, workspace_id);
        lemma_one(before, endpoint, boot_id, last);
        assert(after.assignments.get(key) == before.assignments.get(key));
    }
}

/// After a snapshot every backup of its endpoint is of a workspace that it shows, and from its
/// boot.
pub proof fn law_backups_are_from_the_last_boot(
    state: ContextModel,
    endpoint: EndpointText,
    snapshot: SnapshotText,
    workspace_id: Text,
)
    requires
        state.enabled(),
    ensures
        ({
            let after = state.observe_snapshot(endpoint, snapshot);
            let key = workspace_key(endpoint, workspace_id);
            after.assignments.contains_key(key) ==> snapshot.shows(workspace_id)
                && after.assignments[key].boot_id == snapshot.boot_id
        }),
{
    let observed = state.observe_workspaces(endpoint, snapshot.boot_id, snapshot.workspaces);
    let key = workspace_key(endpoint, workspace_id);
    lemma_retained(observed, endpoint, snapshot, key);
    if snapshot.shows(workspace_id) {
        assert(among(snapshot.workspaces, workspace_id)) by {
            let i = choose|i: int|
                0 <= i < snapshot.workspaces.len()
                    && #[trigger] snapshot.workspaces[i].workspace_id == workspace_id;
            assert(snapshot.workspaces[i].workspace_id == workspace_id);
        }
        lemma_boot(state, endpoint, snapshot.boot_id, snapshot.workspaces, workspace_id);
    }
}

/// All backups of an endpoint are from this boot.
spec fn settled(state: ContextModel, endpoint: EndpointText, boot_id: Text) -> bool {
    forall|workspace_id: Text|
        #![trigger workspace_key(endpoint, workspace_id)]
        !state.lost(workspace_key(endpoint, workspace_id), boot_id)
}

/// Where no backup is from another boot, workspaces of a snapshot queue nothing.
proof fn lemma_settled(
    state: ContextModel,
    endpoint: EndpointText,
    boot_id: Text,
    workspaces: Seq<WorkspaceText>,
)
    requires
        settled(state, endpoint, boot_id),
    ensures
        ({
            let after = state.observe_workspaces(endpoint, boot_id, workspaces);
            &&& settled(after, endpoint, boot_id)
            &&& after.queued_reports == state.queued_reports
        }),
    decreases workspaces.len(),
{
    if workspaces.len() > 0 {
        let short = workspaces.drop_last();
        let last = workspaces.last();
        lemma_settled(state, endpoint, boot_id, short);
        let before = state.observe_workspaces(endpoint, boot_id, short);
        let after = state.observe_workspaces(endpoint, boot_id, workspaces);
        let own = workspace_key(endpoint, last.workspace_id);
        lemma_one(before, endpoint, boot_id, last);
        assert forall|workspace_id: Text|
            #![trigger workspace_key(endpoint, workspace_id)]
            !after.lost(workspace_key(endpoint, workspace_id), boot_id) by {
            let key = workspace_key(endpoint, workspace_id);
            assert(!before.lost(key, boot_id));
            if workspace_id != last.workspace_id {
                assert(after.assignments.get(key) == before.assignments.get(key));
            }
        }
    }
}

/// Once a snapshot of a boot is taken in, further snapshots of that boot queue no reports.
pub proof fn law_a_boot_is_reported_to_once(
    state: ContextModel,
    endpoint: EndpointText,
    snapshot: SnapshotText,
    next: SnapshotText,
)
    requires
        next.boot_id == snapshot.boot_id,
    ensures
        ({
            let after = state.observe_snapshot(endpoint, snapshot);
            after.observe_snapshot(endpoint, next).queued_reports == after.queued_reports
        }),
{
    let after = state.observe_snapshot(endpoint, snapshot);
    if state.enabled() {
        assert forall|workspace_id: Text|
            #![trigger workspace_key(endpoint, workspace_id)]
            !after.lost(workspace_key(endpoint, workspace_id), next.boot_id) by {
            law_backups_are_from_the_last_boot(state, endpoint, snapshot, workspace_id);
        }
        lemma_settled(after, endpoint, next.boot_id, next.workspaces);
    }
}

/// The server lost the context of a workspace: it shows none, and the backup is from another boot.
pub open spec fn context_lost(
    state: ContextModel,
    endpoint: EndpointText,
    boot_id: Text,
    workspace: WorkspaceText,
) -> bool {
    state.token_value(workspace) is None && state.lost(
        workspace_key(endpoint, workspace.workspace_id),
        boot_id,
    )
}

/// The report that gives a workspace its context back.
pub open spec fn report_of_backup(
    state: ContextModel,
    endpoint: EndpointText,
    workspace: WorkspaceText,
) -> ReportText {
    ReportText {
        endpoint,
        workspace_id: workspace.workspace_id,
        context: Some(
            state.assignments[workspace_key(endpoint, workspace.workspace_id)].context,
        ),
    }
}

/// Exactly the workspaces that lost their context are reported, each once and in order.
proof fn lemma_queued(state: ContextModel, endpoint: EndpointText, snapshot: SnapshotText)
    requires
        snapshot.distinct(),
    ensures
        state.observe_workspaces(
            endpoint,
            snapshot.boot_id,
            snapshot.workspaces,
        ).queued_reports == state.queued_reports + snapshot.workspaces.filter(
            |workspace: WorkspaceText|
                context_lost(state, endpoint, snapshot.boot_id, workspace),
        ).map_values(|workspace: WorkspaceText| report_of_backup(state, endpoint, workspace)),
    decreases snapshot.workspaces.len(),
{
    reveal(Seq::filter);
    let test = |workspace: WorkspaceText|
        context_lost(state, endpoint, snapshot.boot_id, workspace);
    let report = |workspace: WorkspaceText| report_of_backup(state, endpoint, workspace);
    let all = snapshot.workspaces;
    if all.len() == 0 {
        assert(state.queued_reports + all.filter(test).map_values(report)
            =~= state.queued_reports);
    } else {
        let short = shorter(snapshot);
        let last = all.last();
        let key = workspace_key(endpoint, last.workspace_id);
        lemma_shorter(snapshot);
        lemma_queued(state, endpoint, short);
        lemma_frame(state, endpoint, snapshot.boot_id, short.workspaces);
        let before = state.observe_workspaces(endpoint, snapshot.boot_id, short.workspaces);
        assert(before.assignments.get(key) == state.assignments.get(key));
        assert(before.token_value(last) == state.token_value(last));
        let listed = short.workspaces.filter(test);
        if test(last) {
            assert(listed.push(last).map_values(report) =~= listed.map_values(report).push(
                report(last),
            ));
            assert(state.queued_reports + listed.map_values(report).push(report(last)) =~= (
            state.queued_reports + listed.map_values(report)).push(report(last)));
        }
    }
}

/// A server that restarts loses its tokens. For each workspace whose context is lost a report is
/// queued that gives it back, in the order of the snapshot, and for no other. Meanwhile the
/// workspace is shown under its context, and the backup counts for the new boot.
pub proof fn law_lost_contexts_are_reported_again(
    state: ContextModel,
    endpoint: EndpointText,
    snapshot: SnapshotText,
)
    requires
        state.enabled(),
        snapshot.distinct(),
    ensures
        ({
            let after = state.observe_snapshot(endpoint, snapshot);
            &&& after.queued_reports == state.queued_reports + snapshot.workspaces.filter(
                |workspace: WorkspaceText|
                    context_lost(state, endpoint, snapshot.boot_id, workspace),
            ).map_values(|workspace: WorkspaceText| report_of_backup(state, endpoint, workspace))
            &&& forall|i: int|
                0 <= i < snapshot.workspaces.len() && #[trigger] context_lost(
                    state,
                    endpoint,
                    snapshot.boot_id,
                    snapshot.workspaces[i],
                ) ==> {
                    let workspace = snapshot.workspaces[i];
                    let key = workspace_key(endpoint, workspace.workspace_id);
                    let context = state.assignments[key].context;
                    &&& after.workspace_context(endpoint, workspace) == Some(context)
                    &&& after.assignments.get(key) == Some(
                        AssignmentText { context, boot_id: snapshot.boot_id },
                    )
                }
        }),
{
    lemma_queued(state, endpoint, snapshot);
    let after = state.observe_snapshot(endpoint, snapshot);
    assert forall|i: int|
        0 <= i < snapshot.workspaces.len() && #[trigger] context_lost(
            state,
            endpoint,
            snapshot.boot_id,
            snapshot.workspaces[i],
        ) implies {
        let workspace = snapshot.workspaces[i];
        let key = workspace_key(endpoint, workspace.workspace_id);
        let context = state.assignments[key].context;
        &&& after.workspace_context(endpoint, workspace) == Some(context)
        &&& after.assignments.get(key) == Some(
            AssignmentText { context, boot_id: snapshot.boot_id },
        )
    } by {
        lemma_shown(state, endpoint, snapshot, i);
    }
}

/// The context that a token names is backed up with the boot, and it is known unless a built-in tab
/// that shows workspaces has its name.
pub proof fn law_tokens_are_backed_up(
    state: ContextModel,
    endpoint: EndpointText,
    snapshot: SnapshotText,
    i: int,
)
    requires
        state.enabled(),
        snapshot.distinct(),
        0 <= i < snapshot.workspaces.len(),
    ensures
        ({
            let workspace = snapshot.workspaces[i];
            let after = state.observe_snapshot(endpoint, snapshot);
            state.token_value(workspace) matches Some(value) ==> after.has_tab(value)
                && after.assignments.get(workspace_key(endpoint, workspace.workspace_id)) == Some(
                AssignmentText { context: value, boot_id: snapshot.boot_id },
            )
        }),
{
    lemma_shown(state, endpoint, snapshot, i);
    let workspace = snapshot.workspaces[i];
    if let Some(value) = state.token_value(workspace) {
        let alone = state.observe_workspace(endpoint, snapshot.boot_id, workspace);
        lemma_frame(state, endpoint, snapshot.boot_id, snapshot.workspaces);
        assert(alone.has_tab(value));
    }
}

/// A token that is cleared while the server runs was cleared on purpose. The backup is gone, and
/// the workspace is shown under the default, unless a move into a context is on its way.
pub proof fn law_cleared_contexts_are_dropped(
    state: ContextModel,
    endpoint: EndpointText,
    snapshot: SnapshotText,
    i: int,
)
    requires
        state.enabled(),
        snapshot.distinct(),
        0 <= i < snapshot.workspaces.len(),
        state.token_value(snapshot.workspaces[i]) is None,
        !context_lost(state, endpoint, snapshot.boot_id, snapshot.workspaces[i]),
        !(state.pending.get(
            workspace_key(endpoint, snapshot.workspaces[i].workspace_id),
        ) matches Some(Some(_))),
    ensures
        ({
            let workspace = snapshot.workspaces[i];
            let after = state.observe_snapshot(endpoint, snapshot);
            &&& !after.assignments.contains_key(
                workspace_key(endpoint, workspace.workspace_id),
            )
            &&& after.workspace_context(endpoint, workspace) is None
        }),
{
    lemma_shown(state, endpoint, snapshot, i);
    let key = workspace_key(endpoint, snapshot.workspaces[i].workspace_id);
    let after = state.observe_snapshot(endpoint, snapshot);
    assert(after.assignments.get(key) is None);
}

/// A move holds until the server confirms it. A snapshot that shows where the workspace was to go
/// ends it, and a stale one leaves it on its way. Either way the workspace is shown where it was
/// moved to.
///
/// A server that lost the context meanwhile is another matter.
pub proof fn law_moves_hold_until_confirmed(
    state: ContextModel,
    endpoint: EndpointText,
    snapshot: SnapshotText,
    i: int,
    context: Option<Text>,
)
    requires
        state.enabled(),
        snapshot.distinct(),
        0 <= i < snapshot.workspaces.len(),
        !context_lost(state, endpoint, snapshot.boot_id, snapshot.workspaces[i]),
        state.pending.get(workspace_key(endpoint, snapshot.workspaces[i].workspace_id)) == Some(
            context,
        ),
    ensures
        ({
            let workspace = snapshot.workspaces[i];
            let after = state.observe_snapshot(endpoint, snapshot);
            &&& after.workspace_context(endpoint, workspace) == context
            &&& after.pending.get(workspace_key(endpoint, workspace.workspace_id))
                == if state.token_value(workspace) == context {
                None
            } else {
                Some(context)
            }
        }),
{
    lemma_shown(state, endpoint, snapshot, i);
}

/// Where no id occurs twice, the same snapshot changes nothing a second time.
pub proof fn law_a_snapshot_settles_at_once(
    state: ContextModel,
    endpoint: EndpointText,
    snapshot: SnapshotText,
)
    requires
        snapshot.distinct(),
    ensures
        ({
            let after = state.observe_snapshot(endpoint, snapshot);
            &&& after.observe_snapshot(endpoint, snapshot) == after
            &&& !after.snapshot_changes(endpoint, snapshot)
        }),
{
    let after = state.observe_snapshot(endpoint, snapshot);
    if state.enabled() {
        let boot_id = snapshot.boot_id;
        assert forall|i: int| 0 <= i < snapshot.workspaces.len() implies after.observe_workspace(
            endpoint,
            boot_id,
            #[trigger] snapshot.workspaces[i],
        ) == after by {
            lemma_settles(state, endpoint, snapshot, i);
        }
        lemma_unmoved(after, endpoint, boot_id, snapshot.workspaces);
        let observed = state.observe_workspaces(endpoint, boot_id, snapshot.workspaces);
        assert(after.retain_shown(endpoint, snapshot) =~= after);
        assert(after.observe_snapshot(endpoint, snapshot) == after);
    }
}

/// After a snapshot none of its workspaces changes anything any more.
proof fn lemma_settles(
    state: ContextModel,
    endpoint: EndpointText,
    snapshot: SnapshotText,
    i: int,
)
    requires
        state.enabled(),
        snapshot.distinct(),
        0 <= i < snapshot.workspaces.len(),
    ensures
        state.observe_snapshot(endpoint, snapshot).observe_workspace(
            endpoint,
            snapshot.boot_id,
            snapshot.workspaces[i],
        ) == state.observe_snapshot(endpoint, snapshot),
{
    let after = state.observe_snapshot(endpoint, snapshot);
    let workspace = snapshot.workspaces[i];
    let key = workspace_key(endpoint, workspace.workspace_id);
    let again = after.observe_workspace(endpoint, snapshot.boot_id, workspace);
    let alone = state.observe_workspace(endpoint, snapshot.boot_id, workspace);
    lemma_shown(state, endpoint, snapshot, i);
    match state.token_value(workspace) {
        Some(value) => {
            lemma_frame(state, endpoint, snapshot.boot_id, snapshot.workspaces);
            assert(alone.has_tab(value));
            assert(after.assignments.get(key) == Some(
                AssignmentText { context: value, boot_id: snapshot.boot_id },
            ));
            assert(again.known =~= after.known);
            assert(again.assignments =~= after.assignments);
            assert(again.pending =~= after.pending);
        },
        None => {
            assert(!after.lost(key, snapshot.boot_id));
            assert(again.assignments =~= after.assignments);
            assert(again.pending =~= after.pending);
        },
    }
    assert(again =~= after);
}

/// Workspaces that change nothing one by one change nothing together.
proof fn lemma_unmoved(
    state: ContextModel,
    endpoint: EndpointText,
    boot_id: Text,
    workspaces: Seq<WorkspaceText>,
)
    requires
        forall|i: int|
            0 <= i < workspaces.len() ==> state.observe_workspace(
                endpoint,
                boot_id,
                #[trigger] workspaces[i],
            ) == state,
    ensures
        state.observe_workspaces(endpoint, boot_id, workspaces) == state,
        !state.workspaces_change(endpoint, boot_id, workspaces),
    decreases workspaces.len(),
{
    if workspaces.len() > 0 {
        let short = workspaces.drop_last();
        let last = workspaces.len() - 1;
        assert forall|i: int| 0 <= i < short.len() implies state.observe_workspace(
            endpoint,
            boot_id,
            #[trigger] short[i],
        ) == state by {
            assert(short[i] == workspaces[i]);
        }
        lemma_unmoved(state, endpoint, boot_id, short);
        assert(workspaces[last] == workspaces.last());
        assert(state.observe_workspaces(endpoint, boot_id, workspaces) == state);
        state.lemma_workspaces_change(endpoint, boot_id, workspaces, last);
        assert(workspaces.take(last) =~= short);
        assert(workspaces.take(last + 1) =~= workspaces);
    }
}

/// Workspaces of which none changes what is saved leave it as it is.
proof fn lemma_unchanged(
    state: ContextModel,
    endpoint: EndpointText,
    boot_id: Text,
    workspaces: Seq<WorkspaceText>,
)
    requires
        !state.workspaces_change(endpoint, boot_id, workspaces),
    ensures
        state.saves_as(state.observe_workspaces(endpoint, boot_id, workspaces)),
    decreases workspaces.len(),
{
    if workspaces.len() > 0 {
        let last = workspaces.len() - 1;
        state.lemma_workspaces_change(endpoint, boot_id, workspaces, last);
        assert(workspaces.take(last) =~= workspaces.drop_last());
        assert(workspaces.take(last + 1) =~= workspaces);
        lemma_unchanged(state, endpoint, boot_id, workspaces.drop_last());
    }
}

/// The beginning of a snapshot.
spec fn beginning(snapshot: SnapshotText, count: int) -> SnapshotText {
    SnapshotText { workspaces: snapshot.workspaces.take(count), ..snapshot }
}

/// The first workspaces of a snapshot make no more known than all of them, and where no id occurs
/// twice they leave each backup as it was or as all of them leave it.
proof fn lemma_beginning(
    state: ContextModel,
    endpoint: EndpointText,
    snapshot: SnapshotText,
    count: int,
)
    requires
        snapshot.distinct(),
        0 <= count <= snapshot.workspaces.len(),
    ensures
        ({
            let part = state.observe_workspaces(
                endpoint,
                snapshot.boot_id,
                snapshot.workspaces.take(count),
            );
            let all = state.observe_workspaces(endpoint, snapshot.boot_id, snapshot.workspaces);
            &&& part.known.subset_of(all.known)
            &&& forall|key: KeyText|
                #![trigger part.assignments.get(key)]
                part.assignments.get(key) == state.assignments.get(key) || (
                part.assignments.get(key) == all.assignments.get(key) && key.0
                    == endpoint.storage_key() && snapshot.shows(key.1))
        }),
    decreases snapshot.workspaces.len() - count,
{
    let boot_id = snapshot.boot_id;
    let workspaces = snapshot.workspaces;
    let first = beginning(snapshot, count);
    let part = state.observe_workspaces(endpoint, boot_id, first.workspaces);
    let all = state.observe_workspaces(endpoint, boot_id, workspaces);
    if count == workspaces.len() {
        assert(workspaces.take(count) =~= workspaces);
    } else {
        lemma_beginning(state, endpoint, snapshot, count + 1);
        assert(workspaces.take(count + 1).drop_last() =~= workspaces.take(count));
        lemma_one(part, endpoint, boot_id, workspaces[count]);
    }
    assert forall|i: int, j: int| 0 <= i < j < first.workspaces.len() implies #[trigger]
        first.workspaces[i].workspace_id != #[trigger] first.workspaces[j].workspace_id by {
        assert(workspaces[i].workspace_id != workspaces[j].workspace_id);
    }
    assert forall|key: KeyText|
        #![trigger part.assignments.get(key)]
        part.assignments.get(key) == state.assignments.get(key) || (part.assignments.get(key)
            == all.assignments.get(key) && key.0 == endpoint.storage_key() && snapshot.shows(
            key.1,
        )) by {
        lemma_frame(state, endpoint, boot_id, first.workspaces);
        if key.0 == endpoint.storage_key() && among(first.workspaces, key.1) {
            let i = choose|i: int|
                0 <= i < first.workspaces.len() && #[trigger] first.workspaces[i].workspace_id
                    == key.1;
            assert(first.workspaces[i] == workspaces[i]);
            assert(snapshot.shows(key.1));
            lemma_each(state, endpoint, first, i);
            lemma_each(state, endpoint, snapshot, i);
            assert(key == workspace_key(endpoint, workspaces[i].workspace_id));
        }
    }
}

/// A snapshot that is taken in without a noticed change leaves what is saved as it is. Where no id
/// occurs twice, a change is noticed exactly when what is saved is another.
pub proof fn law_changes_are_noticed(
    state: ContextModel,
    endpoint: EndpointText,
    snapshot: SnapshotText,
)
    ensures
        ({
            let after = state.observe_snapshot(endpoint, snapshot);
            &&& !state.snapshot_changes(endpoint, snapshot) ==> state.saves_as(after)
            &&& snapshot.distinct() ==> (state.snapshot_changes(endpoint, snapshot)
                <==> !state.saves_as(after))
        }),
{
    let boot_id = snapshot.boot_id;
    let workspaces = snapshot.workspaces;
    let after = state.observe_snapshot(endpoint, snapshot);
    if state.enabled() {
        let all = state.observe_workspaces(endpoint, boot_id, workspaces);
        if !state.snapshot_changes(endpoint, snapshot) {
            lemma_unchanged(state, endpoint, boot_id, workspaces);
        }
        if snapshot.distinct() && state.saves_as(after) {
            assert forall|i: int| 0 <= i <= workspaces.len() implies state.saves_as(
                state.observe_workspaces(endpoint, boot_id, #[trigger] workspaces.take(i)),
            ) by {
                let part = state.observe_workspaces(endpoint, boot_id, workspaces.take(i));
                lemma_beginning(state, endpoint, snapshot, i);
                lemma_frame(state, endpoint, boot_id, workspaces.take(i));
                assert(part.known =~= state.known);
                assert forall|key: KeyText|
                    #![trigger part.assignments.contains_key(key)]
                    #![trigger state.assignments.contains_key(key)]
                    part.assignments.get(key) == state.assignments.get(key) by {
                    lemma_retained(all, endpoint, snapshot, key);
                }
                lemma_same_map(part.assignments, state.assignments);
            }
            assert(workspaces.take(workspaces.len() as int) =~= workspaces);
            assert(!state.workspaces_change(endpoint, boot_id, workspaces)) by {
                assert forall|i: int| 0 <= i < workspaces.len() implies state.observe_workspaces(
                    endpoint,
                    boot_id,
                    #[trigger] workspaces.take(i),
                ).saves_as(state.observe_workspaces(endpoint, boot_id, workspaces.take(i + 1))) by {
                    assert(state.saves_as(
                        state.observe_workspaces(endpoint, boot_id, workspaces.take(i + 1)),
                    ));
                }
            }
        }
    }
}

/// Maps that hold the same under every key are the same.
proof fn lemma_same_map<V>(left: Map<KeyText, V>, right: Map<KeyText, V>)
    requires
        forall|key: KeyText|
            #![trigger left.contains_key(key)]
            #![trigger right.contains_key(key)]
            left.get(key) == right.get(key),
    ensures
        left == right,
{
    assert forall|key: KeyText| left.contains_key(key) == right.contains_key(key) by {
        assert(left.get(key) == right.get(key));
    }
    assert forall|key: KeyText| left.contains_key(key) implies left[key] == right[key] by {
        assert(left.get(key) == right.get(key));
    }
    assert(left =~= right);
}

/// Workspaces of a snapshot keep what is in use known, make the contexts of their tokens known,
/// and keep the state finite.
proof fn lemma_observed(
    state: ContextModel,
    endpoint: EndpointText,
    boot_id: Text,
    workspaces: Seq<WorkspaceText>,
)
    ensures
        ({
            let after = state.observe_workspaces(endpoint, boot_id, workspaces);
            &&& state.covered() ==> after.covered()
            &&& state.valid() ==> after.valid()
            &&& forall|i: int|
                0 <= i < workspaces.len() ==> (state.token_value(
                    #[trigger] workspaces[i],
                ) matches Some(value) ==> after.has_tab(value))
        }),
    decreases workspaces.len(),
{
    if workspaces.len() > 0 {
        let short = workspaces.drop_last();
        let last = workspaces.last();
        let key = workspace_key(endpoint, last.workspace_id);
        lemma_observed(state, endpoint, boot_id, short);
        lemma_frame(state, endpoint, boot_id, short);
        let before = state.observe_workspaces(endpoint, boot_id, short);
        let after = state.observe_workspaces(endpoint, boot_id, workspaces);
        lemma_one(before, endpoint, boot_id, last);
        assert forall|i: int| 0 <= i < workspaces.len() implies (state.token_value(
            #[trigger] workspaces[i],
        ) matches Some(value) ==> after.has_tab(value)) by {
            if i < short.len() {
                assert(short[i] == workspaces[i]);
            }
        }
        if before.covered() {
            assert forall|other: KeyText|
                #![trigger after.pending[other]]
                after.pending.contains_key(other) implies (after.pending[other] matches Some(name)
                ==> after.has_tab(name)) by {
                assert(before.pending.contains_key(other) ==> (before.pending[other] matches Some(
                    name,
                ) ==> before.has_tab(name)));
                assert(before.assignments.contains_key(other) ==> before.has_tab(before.assignments[other].context));
            }
            assert forall|other: KeyText|
                #![trigger after.assignments[other]]
                after.assignments.contains_key(other) implies after.has_tab(after.assignments[other].context) by {
                assert(before.assignments.contains_key(other) ==> before.has_tab(before.assignments[other].context));
            }
        }
    }
}

/// A snapshot keeps the contexts in use known, and the state valid.
pub proof fn law_snapshots_keep_contexts_known(
    state: ContextModel,
    endpoint: EndpointText,
    snapshot: SnapshotText,
)
    ensures
        state.covered() ==> state.observe_snapshot(endpoint, snapshot).covered(),
        state.valid() ==> state.observe_snapshot(endpoint, snapshot).valid(),
{
    if state.enabled() {
        lemma_observed(state, endpoint, snapshot.boot_id, snapshot.workspaces);
        let all = state.observe_workspaces(endpoint, snapshot.boot_id, snapshot.workspaces);
        let after = all.retain_shown(endpoint, snapshot);
        assert(after.pending.dom().subset_of(all.pending.dom()));
        assert(after.assignments.dom().subset_of(all.assignments.dom()));
        if state.valid() {
            vstd::set_lib::lemma_set_subset_finite(all.pending.dom(), after.pending.dom());
            vstd::set_lib::lemma_set_subset_finite(all.assignments.dom(), after.assignments.dom());
        }
        if all.covered() {
            assert forall|key: KeyText|
                #![trigger after.pending[key]]
                after.pending.contains_key(key) implies (after.pending[key] matches Some(name)
                ==> after.has_tab(name)) by {
                assert(all.pending[key] == after.pending[key]);
            }
            assert forall|key: KeyText|
                #![trigger after.assignments[key]]
                after.assignments.contains_key(key) implies after.has_tab(after.assignments[key].context) by {
                assert(all.assignments[key] == after.assignments[key]);
            }
        }
    }
}

/// Once a snapshot is taken in, each of its workspaces is shown under a tab of the row: the
/// default, or the tab of its context. Only a workspace whose context has the label of a built-in
/// tab that shows workspaces is shown under everything alone.
pub proof fn law_every_workspace_has_a_tab(
    state: ContextModel,
    endpoint: EndpointText,
    snapshot: SnapshotText,
    i: int,
)
    requires
        state.enabled(),
        state.valid(),
        state.covered(),
        0 <= i < snapshot.workspaces.len(),
    ensures
        ({
            let after = state.observe_snapshot(endpoint, snapshot);
            after.workspace_context(endpoint, snapshot.workspaces[i]) matches Some(name)
                ==> after.built_in(name) || after.tabs().contains(TabText::Named(name))
        }),
{
    let workspace = snapshot.workspaces[i];
    let key = workspace_key(endpoint, workspace.workspace_id);
    let all = state.observe_workspaces(endpoint, snapshot.boot_id, snapshot.workspaces);
    let after = state.observe_snapshot(endpoint, snapshot);
    lemma_observed(state, endpoint, snapshot.boot_id, snapshot.workspaces);
    lemma_frame(state, endpoint, snapshot.boot_id, snapshot.workspaces);
    law_snapshots_keep_contexts_known(state, endpoint, snapshot);
    if let Some(name) = after.workspace_context(endpoint, workspace) {
        if after.pending.contains_key(key) {
            assert(after.pending[key] == Some(name));
        } else {
            assert(state.token_value(workspace) == Some(name));
        }
        law_known_contexts_have_tabs(after, name);
    }
}

// ---- workspace by workspace ----
/// What is kept of one workspace once a snapshot shows it with `token` as its context, if any.
pub open spec fn reconciled(
    pending: Option<Option<Text>>,
    backup: Option<AssignmentText>,
    token: Option<Text>,
    boot_id: Text,
    pending_after: Option<Option<Text>>,
    backup_after: Option<AssignmentText>,
) -> bool {
    match token {
        // The server shows a context. It is backed up, a move into it has arrived, and any other
        // move goes on. Without a move there is still none.
        Some(value) => {
            &&& backup_after == Some(AssignmentText { context: value, boot_id })
            &&& pending == Some(Some(value)) ==> pending_after is None
            &&& pending != Some(Some(value)) ==> pending_after == pending
        },
        None => match backup {
            // The server restarted and lost the context.
            Some(saved) if saved.boot_id != boot_id => {
                &&& backup_after == Some(AssignmentText { context: saved.context, boot_id })
                &&& pending_after == Some(Some(saved.context))
            },
            // There is none, and a move into one goes on.
            _ => if pending is Some && pending->0 is Some {
                backup_after == backup && pending_after == pending
            } else {
                backup_after is None && pending_after is None
            },
        },
    }
}

/// One workspace of a snapshot changes its own move and backup, makes the context of its token
/// known, and is reported again if the server lost its context. Nothing else changes.
pub proof fn law_observing_one_workspace(
    state: ContextModel,
    endpoint: EndpointText,
    boot_id: Text,
    workspace: WorkspaceText,
    other: KeyText,
)
    ensures
        ({
            let after = state.observe_workspace(endpoint, boot_id, workspace);
            let key = (endpoint.storage_key(), workspace.workspace_id);
            let token = state.token_value(workspace);
            let backup = state.assignments.get(key);
            &&& after.token_key == state.token_key
            &&& after.default_name == state.default_name
            &&& after.active == state.active
            &&& reconciled(
                state.pending.get(key),
                backup,
                token,
                boot_id,
                after.pending.get(key),
                after.assignments.get(key),
            )
            &&& other != key ==> after.pending.get(other) == state.pending.get(other)
                && after.assignments.get(other) == state.assignments.get(other)
            &&& after.known == if token is Some && token != Some(state.default_name) && token
                != Some("all"@) {
                state.known.insert(token->0)
            } else {
                state.known
            }
            &&& after.queued_reports == if token is None && backup is Some && backup->0.boot_id
                != boot_id {
                state.queued_reports.push(
                    ReportText {
                        endpoint,
                        workspace_id: workspace.workspace_id,
                        context: Some(backup->0.context),
                    },
                )
            } else {
                state.queued_reports
            }
        }),
{
}

/// The workspaces of a snapshot are taken in one after the other. Then what belongs to workspaces
/// of the endpoint that the snapshot does not show is forgotten, and nothing else.
pub proof fn law_snapshots_are_taken_in_in_order(
    state: ContextModel,
    endpoint: EndpointText,
    snapshot: SnapshotText,
    workspace: WorkspaceText,
    key: KeyText,
)
    ensures
        state.observe_workspaces(endpoint, snapshot.boot_id, Seq::empty()) == state,
        state.observe_workspaces(endpoint, snapshot.boot_id, snapshot.workspaces.push(workspace))
            == state.observe_workspaces(
            endpoint,
            snapshot.boot_id,
            snapshot.workspaces,
        ).observe_workspace(endpoint, snapshot.boot_id, workspace),
        state.token_key is None ==> state.observe_snapshot(endpoint, snapshot) == state,
        state.token_key is Some ==> {
            let taken = state.observe_workspaces(
                endpoint,
                snapshot.boot_id,
                snapshot.workspaces,
            );
            let after = state.observe_snapshot(endpoint, snapshot);
            &&& after == (ContextModel {
                pending: after.pending,
                assignments: after.assignments,
                ..taken
            })
            &&& (key.0 != endpoint.storage_key() || exists|i: int|
                0 <= i < snapshot.workspaces.len() && #[trigger] snapshot.workspaces[i].workspace_id
                    == key.1) ==> after.pending.get(key) == taken.pending.get(key)
                && after.assignments.get(key) == taken.assignments.get(key)
            &&& (key.0 == endpoint.storage_key() && forall|i: int|
                0 <= i < snapshot.workspaces.len() ==> #[trigger]
                    snapshot.workspaces[i].workspace_id != key.1) ==> after.pending.get(key)
                is None && after.assignments.get(key) is None
        },
{
    let all = snapshot.workspaces.push(workspace);
    assert(all.drop_last() =~= snapshot.workspaces);
    if state.enabled() {
        let taken = state.observe_workspaces(endpoint, snapshot.boot_id, snapshot.workspaces);
        lemma_retained(taken, endpoint, snapshot, key);
        if exists|i: int|
            0 <= i < snapshot.workspaces.len() && #[trigger] snapshot.workspaces[i].workspace_id
                == key.1 {
            assert(snapshot.shows(key.1));
        }
    }
}

/// Where no id occurs twice, each workspace of a snapshot is reconciled with its own token. One whose
/// token names a context and that was not on its way anywhere is in that context.
pub proof fn law_observing_a_snapshot(
    state: ContextModel,
    endpoint: EndpointText,
    snapshot: SnapshotText,
    i: int,
)
    requires
        state.token_key is Some,
        0 <= i < snapshot.workspaces.len(),
        forall|a: int, b: int|
            0 <= a < b < snapshot.workspaces.len() ==> (
            #[trigger] snapshot.workspaces[a]).workspace_id != (
            #[trigger] snapshot.workspaces[b]).workspace_id,
    ensures
        ({
            let after = state.observe_snapshot(endpoint, snapshot);
            let workspace = snapshot.workspaces[i];
            let key = (endpoint.storage_key(), workspace.workspace_id);
            let token = state.token_value(workspace);
            &&& reconciled(
                state.pending.get(key),
                state.assignments.get(key),
                token,
                snapshot.boot_id,
                after.pending.get(key),
                after.assignments.get(key),
            )
            &&& !state.pending.contains_key(key) && token is Some ==> !after.pending.contains_key(
                key,
            ) && after.workspace_context(endpoint, workspace) == token
        }),
{
    let workspace = snapshot.workspaces[i];
    let key = (endpoint.storage_key(), workspace.workspace_id);
    assert(snapshot.distinct()) by {
        assert forall|a: int, b: int| 0 <= a < b < snapshot.workspaces.len() implies #[trigger]
            snapshot.workspaces[a].workspace_id != #[trigger]
            snapshot.workspaces[b].workspace_id by {}
    }
    lemma_shown(state, endpoint, snapshot, i);
    law_observing_one_workspace(state, endpoint, snapshot.boot_id, workspace, key);
}

/// After a snapshot a context is known if it was before, or if it is that of a token and neither the
/// default name nor the label for everything.
pub proof fn law_known_after_a_snapshot(
    state: ContextModel,
    endpoint: EndpointText,
    snapshot: SnapshotText,
    name: Text,
)
    requires
        state.token_key is Some,
    ensures
        state.observe_snapshot(endpoint, snapshot).known.contains(name) <==> state.known.contains(
            name,
        ) || (name != state.default_name && name != "all"@ && exists|i: int|
            0 <= i < snapshot.workspaces.len() && state.token_value(
                #[trigger] snapshot.workspaces[i],
            ) == Some(name)),
{
    lemma_known_after(state, endpoint, snapshot.boot_id, snapshot.workspaces, name);
}

/// What workspaces of a snapshot make known.
proof fn lemma_known_after(
    state: ContextModel,
    endpoint: EndpointText,
    boot_id: Text,
    workspaces: Seq<WorkspaceText>,
    name: Text,
)
    ensures
        state.observe_workspaces(endpoint, boot_id, workspaces).known.contains(name)
            <==> state.known.contains(name) || (name != state.default_name && name != "all"@
            && exists|i: int|
            0 <= i < workspaces.len() && state.token_value(#[trigger] workspaces[i]) == Some(name)),
    decreases workspaces.len(),
{
    if workspaces.len() > 0 {
        let short = workspaces.drop_last();
        lemma_known_after(state, endpoint, boot_id, short, name);
        lemma_frame(state, endpoint, boot_id, short);
        let before = state.observe_workspaces(endpoint, boot_id, short);
        assert(before.token_value(workspaces.last()) == state.token_value(workspaces.last()));
        assert(workspaces[workspaces.len() - 1] == workspaces.last());
        if exists|i: int|
            0 <= i < short.len() && state.token_value(#[trigger] short[i]) == Some(name) {
            let i = choose|i: int|
                0 <= i < short.len() && state.token_value(#[trigger] short[i]) == Some(name);
            assert(workspaces[i] == short[i]);
        }
        if exists|i: int|
            0 <= i < workspaces.len() && state.token_value(#[trigger] workspaces[i]) == Some(
                name,
            ) {
            let i = choose|i: int|
                0 <= i < workspaces.len() && state.token_value(#[trigger] workspaces[i]) == Some(
                    name,
                );
            if i < short.len() {
                assert(short[i] == workspaces[i]);
            }
        }
    }
}

/// A change is noticed where a workspace, or forgetting those that are not shown, leaves other known
/// contexts or other backups than before. Without a configured token there is none.
pub proof fn law_changes_workspace_by_workspace(
    state: ContextModel,
    endpoint: EndpointText,
    snapshot: SnapshotText,
    workspace: WorkspaceText,
)
    ensures
        ({
            let boot_id = snapshot.boot_id;
            let workspaces = snapshot.workspaces;
            let taken = state.observe_workspaces(endpoint, boot_id, workspaces);
            let next = taken.observe_workspace(endpoint, boot_id, workspace);
            &&& !state.workspaces_change(endpoint, boot_id, Seq::empty())
            &&& state.workspaces_change(endpoint, boot_id, workspaces.push(workspace)) <==> (
            state.workspaces_change(endpoint, boot_id, workspaces) || next.known != taken.known
                || next.assignments != taken.assignments)
            &&& state.snapshot_changes(endpoint, snapshot) <==> state.token_key is Some && (
            state.workspaces_change(endpoint, boot_id, workspaces) || state.observe_snapshot(
                endpoint,
                snapshot,
            ).assignments != taken.assignments)
        }),
{
    let all = snapshot.workspaces.push(workspace);
    let count = snapshot.workspaces.len() as int;
    state.lemma_workspaces_change(endpoint, snapshot.boot_id, all, count);
    assert(all.take(count) =~= snapshot.workspaces);
    assert(all.take(count + 1) =~= all);
    assert(all.drop_last() =~= snapshot.workspaces);
}

} // verus!
