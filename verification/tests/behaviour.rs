//! How the operations of the context state go together.

use context_tabs::contexts::{ActiveContext, ContextState, ContextTab, QueuedContextReport};
use context_tabs::preferences::{
    ClientContextPreferences, ClientContextSelection, ClientWorkspaceContext,
};
use context_tabs::protocol::{
    ClientEndpointId, ClientShellSnapshot, ClientShellWorkspace, ProfileId,
};

const LOCAL: ClientEndpointId = ClientEndpointId::Local;

fn ssh(id: &str) -> ClientEndpointId {
    ClientEndpointId::Ssh(ProfileId { id: id.into() })
}

fn named(name: &str) -> ActiveContext {
    ActiveContext::Named(name.into())
}

fn workspace(id: &str, context: Option<&str>) -> ClientShellWorkspace {
    ClientShellWorkspace {
        workspace_id: id.into(),
        tokens: context
            .map(|context| vec![("context".to_owned(), context.to_owned())])
            .unwrap_or_default(),
    }
}

fn snapshot(boot_id: &str, workspaces: &[(&str, Option<&str>)]) -> ClientShellSnapshot {
    ClientShellSnapshot {
        boot_id: boot_id.into(),
        workspaces: workspaces
            .iter()
            .map(|(id, context)| workspace(id, *context))
            .collect(),
    }
}

fn enabled() -> ContextState {
    ContextState::new(Some("context".into()), "default", None)
}

fn visible(state: &ContextState, snapshot: &ClientShellSnapshot) -> Vec<String> {
    snapshot
        .workspaces
        .iter()
        .filter(|workspace| state.workspace_visible(&LOCAL, workspace))
        .map(|workspace| workspace.workspace_id.clone())
        .collect()
}

fn backups(state: &ContextState) -> Vec<(String, String, String)> {
    (0..state.assignments().len())
        .map(|i| {
            let (key, assignment) = state.assignments().entry(i);
            (key.1.clone(), assignment.context.clone(), assignment.boot_id.clone())
        })
        .collect()
}

fn report(endpoint_id: &ClientEndpointId, id: &str, context: &str) -> QueuedContextReport {
    QueuedContextReport {
        endpoint_id: endpoint_id.clone(),
        workspace_id: id.into(),
        context: Some(context.into()),
    }
}

#[test]
fn every_tab_but_the_first_selects_something() {
    let mut state = enabled();
    state.add_known("kund");
    let tabs = state.tabs();
    let selected = tabs.iter().filter_map(ContextTab::to_active).collect::<Vec<_>>();
    assert_eq!(selected, [ActiveContext::Default, named("kund"), ActiveContext::All]);
    assert_eq!(selected, state.selectable());
    assert!(tabs[0].to_active().is_none());
    let labels = tabs.iter().map(|tab| tab.label("home")).collect::<Vec<_>>();
    assert_eq!(labels, ["+", "home", "kund", "all"]);
    let names = tabs.iter().filter_map(ContextTab::named).collect::<Vec<_>>();
    assert_eq!(names, ["kund"]);
}

#[test]
fn one_tab_is_active() {
    let mut state = enabled();
    state.add_known("kund");
    for selection in [ActiveContext::Default, named("kund"), named("new"), ActiveContext::All] {
        state.set_active(selection);
        let active = state
            .tabs()
            .iter()
            .filter(|tab| tab.is_active(state.active()))
            .count();
        assert_eq!(active, 1);
    }
    assert_eq!(named("kund").named(), Some("kund"));
    assert_eq!(ActiveContext::All.named(), None);
}

#[test]
fn selecting_tells_whether_the_selection_changed() {
    let mut state = enabled();
    assert!(!state.set_active(ActiveContext::Default));
    assert!(state.set_active(named("kund")));
    assert!(!state.set_active(named("kund")));
    assert_eq!(state.known(), ["kund"]);
    for label in ["default", "all", "+"] {
        assert!(state.is_reserved_name(label));
        assert!(!state.set_active(named(label)));
        assert!(!state.add_known(label));
        assert!(!state.rename_known("kund", label));
    }
    assert!(!state.is_reserved_name("kund"));
    assert_eq!(state.active(), &named("kund"));
    assert_eq!(state.known(), ["kund"]);
}

#[test]
fn cycling_goes_round() {
    let mut state = enabled();
    state.add_known("a");
    state.add_known("b");
    let start = state.clone();
    assert!(!state.cycle_active(0));
    assert!(!state.cycle_active(4));
    assert!(!state.cycle_active(-4));
    assert_eq!(state.active(), start.active());
    for first in -9..10 {
        for second in -9..10 {
            let mut steps = start.clone();
            steps.cycle_active(first);
            steps.cycle_active(second);
            let mut both = start.clone();
            both.cycle_active(first + second);
            assert_eq!(steps.active(), both.active());
        }
    }
    // The largest steps count round as well.
    let mut far = start.clone();
    far.cycle_active(isize::MAX);
    assert_eq!(far.active(), &ActiveContext::All);
    far.cycle_active(isize::MIN);
    assert_eq!(far.active(), &ActiveContext::All);
    // Tokens with the label of the default or of everything do not stop the round.
    let mut state = enabled();
    state.observe_snapshot(&LOCAL, &snapshot("boot-1", &[("a", Some("all")), ("b", Some("default"))]));
    assert!(state.cycle_active(1));
    assert_eq!(state.active(), &ActiveContext::All);
    assert!(state.cycle_active(1));
    assert_eq!(state.active(), &ActiveContext::Default);
}

#[test]
fn built_in_labels_are_no_contexts() {
    let built_in = [ContextTab::New, ContextTab::Default, ContextTab::All];
    // Not from the token of a workspace, which is backed up and reported again all the same.
    let mut state = enabled();
    let shown = snapshot("boot-1", &[("a", Some("all"))]);
    assert!(state.observe_snapshot(&LOCAL, &shown));
    assert!(state.known().is_empty());
    assert_eq!(state.tabs(), built_in);
    assert_eq!(state.workspace_context(&LOCAL, &shown.workspaces[0]), Some("all"));
    assert!(visible(&state, &shown).is_empty());
    state.set_active(ActiveContext::All);
    assert_eq!(visible(&state, &shown), ["a"]);
    assert_eq!(backups(&state), [("a".into(), "all".into(), "boot-1".into())]);
    assert!(!state.observe_snapshot(&LOCAL, &shown));
    state.observe_snapshot(&LOCAL, &snapshot("boot-2", &[("a", None)]));
    assert_eq!(state.take_queued_reports(&LOCAL), [report(&LOCAL, "a", "all")]);
    // Not from a move.
    let mut state = enabled();
    for label in ["all", "default"] {
        state.set_pending(&LOCAL, "a", Some(label.into()));
        assert!(state.known().is_empty());
        assert_eq!(state.workspace_context(&LOCAL, &shown.workspaces[0]), Some(label));
    }
    assert_eq!(state.to_preferences(), None);
    // Not from a saved backup.
    let saved = ClientContextPreferences {
        active: None,
        known: vec![],
        workspaces: vec![saved_context("a", "default")],
    };
    let state = ContextState::new(Some("context".into()), "default", Some(&saved));
    assert!(state.known().is_empty());
    assert_eq!(state.tabs(), built_in);
    assert_eq!(state.to_preferences(), Some(saved));
}

#[test]
fn a_context_named_like_the_tab_for_a_new_one_is_known_but_not_selectable() {
    let mut state = enabled();
    let shown = snapshot("boot-1", &[("a", Some("+"))]);
    assert!(state.observe_snapshot(&LOCAL, &shown));
    assert_eq!(state.known(), ["+"]);
    assert!(!state.set_active(named("+")));
    // A step onto it changes nothing, and one over it goes on.
    assert!(!state.cycle_active(1));
    assert_eq!(state.active(), &ActiveContext::Default);
    assert!(state.cycle_active(2));
    assert_eq!(state.active(), &ActiveContext::All);
    // Its backup brings it back.
    let saved = state.to_preferences().expect("preferences");
    let restored = ContextState::new(Some("context".into()), "default", Some(&saved));
    assert_eq!(restored.known(), ["+"]);
    assert_eq!(restored.to_preferences(), Some(saved));
    // Without one it is gone.
    let mut state = enabled();
    state.set_pending(&LOCAL, "a", Some("+".into()));
    assert_eq!(state.known(), ["+"]);
    let saved = state.to_preferences().expect("preferences");
    let restored = ContextState::new(Some("context".into()), "default", Some(&saved));
    assert!(restored.known().is_empty());
}

#[test]
fn adding_and_renaming_can_be_undone() {
    let mut state = enabled();
    state.observe_snapshot(&LOCAL, &snapshot("boot-1", &[("a", Some("kund"))]));
    state.set_pending(&LOCAL, "b", Some("kund".into()));
    state.set_active(named("kund"));
    let before = state.clone();
    assert!(state.add_known(" ops "));
    assert!(state.remove_known("ops"));
    assert_eq!(state.known(), before.known());
    assert!(!state.remove_known("ops"));

    assert!(state.rename_known("kund", "client"));
    assert_eq!(state.known(), ["client"]);
    assert!(!state.rename_known("client", "client"));
    assert!(!state.rename_known("client", "  "));
    assert!(state.rename_known("client", "kund"));
    assert_eq!(state.active(), before.active());
    assert_eq!(state.known(), before.known());
    assert_eq!(state.pending(), before.pending());
    assert_eq!(state.assignments(), before.assignments());
}

#[test]
fn renaming_into_a_known_context_joins_them() {
    let mut state = enabled();
    let shown = snapshot("boot-1", &[("a", Some("kund")), ("b", Some("privat"))]);
    state.observe_snapshot(&LOCAL, &shown);
    state.set_active(named("privat"));
    assert!(state.rename_known("kund", "privat"));
    assert_eq!(state.known(), ["privat"]);
    assert_eq!(state.active(), &named("privat"));
    assert!(backups(&state).iter().all(|(_, context, _)| context == "privat"));
}

#[test]
fn removing_sends_moves_to_the_default() {
    let mut state = enabled();
    let shown = snapshot("boot-1", &[("a", Some("kund")), ("b", Some("privat"))]);
    state.observe_snapshot(&LOCAL, &shown);
    state.set_pending(&LOCAL, "b", Some("kund".into()));
    assert!(state.remove_known("kund"));
    assert_eq!(state.known(), ["privat"]);
    assert_eq!(state.workspace_context(&LOCAL, &shown.workspaces[1]), None);
    assert_eq!(backups(&state), [("b".into(), "privat".into(), "boot-1".into())]);
}

#[test]
fn tabs_part_the_workspaces() {
    let mut state = enabled();
    let shown = snapshot(
        "boot-1",
        &[("a", Some("kund")), ("b", None), ("c", Some("privat")), ("d", Some("default"))],
    );
    state.observe_snapshot(&LOCAL, &shown);
    let mut seen = Vec::new();
    for selection in [ActiveContext::Default, named("kund"), named("privat")] {
        state.set_active(selection);
        seen.extend(visible(&state, &shown));
    }
    seen.sort();
    assert_eq!(seen, ["a", "b", "c", "d"]);
    state.set_active(ActiveContext::All);
    assert_eq!(visible(&state, &shown), ["a", "b", "c", "d"]);
    assert_eq!(state.workspaces_in_context(&LOCAL, &shown, "kund"), ["a"]);
    assert!(state.workspaces_in_context(&LOCAL, &shown, "default").is_empty());
}

#[test]
fn only_the_configured_token_counts() {
    let state = enabled();
    let mut tagged = workspace("a", None);
    assert_eq!(state.token_value(&tagged), None);
    tagged.tokens = vec![
        ("other".into(), "x".into()),
        ("context".into(), "kund".into()),
        ("context".into(), "privat".into()),
    ];
    assert_eq!(state.token_value(&tagged), Some("kund"));
    tagged.tokens[1].1 = "default".into();
    assert_eq!(state.token_value(&tagged), None);
    let off = ContextState::new(None, "default", None);
    assert_eq!(off.token_value(&tagged), None);
}

#[test]
fn pending_moves_win_until_they_are_cleared() {
    let mut state = enabled();
    let shown = snapshot("boot-1", &[("a", Some("kund")), ("b", Some("kund"))]);
    state.observe_snapshot(&LOCAL, &shown);
    state.set_pending(&LOCAL, "a", Some("privat".into()));
    assert_eq!(state.known(), ["kund", "privat"]);
    assert_eq!(state.workspace_context(&LOCAL, &shown.workspaces[0]), Some("privat"));
    assert_eq!(state.workspace_context(&LOCAL, &shown.workspaces[1]), Some("kund"));
    assert_eq!(state.workspace_context(&ssh("x"), &shown.workspaces[0]), Some("kund"));
    state.set_pending(&LOCAL, "a", None);
    assert_eq!(state.workspace_context(&LOCAL, &shown.workspaces[0]), None);
    state.clear_pending(&LOCAL, "a");
    assert_eq!(state.workspace_context(&LOCAL, &shown.workspaces[0]), Some("kund"));
    assert!(state.pending().is_empty());
}

#[test]
fn configuration_is_reapplied() {
    let mut state = enabled();
    state.add_known("work");
    state.set_active(named("kund"));
    state.apply_config(Some("ctx".into()), "default");
    assert_eq!(state.known(), ["kund", "work"]);
    assert_eq!(state.token_key(), Some("ctx"));
    state.apply_config(Some("ctx".into()), "work");
    assert_eq!(state.default_name(), "work");
    assert_eq!(state.known(), ["kund"]);
    assert_eq!(state.active(), &named("kund"));
    state.apply_config(Some("ctx".into()), "work");
    assert_eq!(state.known(), ["kund"]);
}

#[test]
fn snapshots_leave_other_endpoints_alone() {
    let mut state = enabled();
    let (one, two) = (ssh("one"), ssh("two"));
    state.observe_snapshot(&one, &snapshot("boot-1", &[("a", Some("kund"))]));
    state.observe_snapshot(&two, &snapshot("boot-1", &[("a", Some("privat"))]));
    state.set_pending(&one, "a", Some("ops".into()));
    state.observe_snapshot(&two, &snapshot("boot-2", &[("a", None)]));
    state.observe_snapshot(&LOCAL, &snapshot("boot-2", &[]));
    let untagged = workspace("a", None);
    assert_eq!(state.workspace_context(&one, &untagged), Some("ops"));
    assert_eq!(state.workspace_context(&two, &untagged), Some("privat"));
    assert!(state.take_queued_reports(&one).is_empty());
    assert_eq!(state.take_queued_reports(&two), [report(&two, "a", "privat")]);
    assert_ne!(one.storage_key(), two.storage_key());
    assert_ne!(one.storage_key(), LOCAL.storage_key());
    assert_ne!(ssh("").storage_key(), LOCAL.storage_key());
}

#[test]
fn lost_contexts_are_reported_again_in_order() {
    let mut state = enabled();
    let far = ssh("far");
    let before = [("a", Some("kund")), ("b", None), ("c", Some("privat")), ("d", Some("kund"))];
    let after = [("d", None), ("c", Some("ops")), ("b", None), ("a", None), ("e", None)];
    state.observe_snapshot(&LOCAL, &snapshot("boot-1", &before));
    state.observe_snapshot(&far, &snapshot("boot-7", &[("a", Some("far"))]));
    assert!(state.observe_snapshot(&far, &snapshot("boot-8", &[("a", None)])));
    let restarted = snapshot("boot-2", &after);
    assert!(state.observe_snapshot(&LOCAL, &restarted));
    let queued = state.take_queued_reports(&LOCAL);
    assert_eq!(queued, [report(&LOCAL, "d", "kund"), report(&LOCAL, "a", "kund")]);
    assert!(state.take_queued_reports(&LOCAL).is_empty());
    assert_eq!(state.take_queued_reports(&far), [report(&far, "a", "far")]);
    state.set_active(named("kund"));
    assert_eq!(visible(&state, &restarted), ["d", "a"]);
    assert!(backups(&state)
        .iter()
        .all(|(_, context, boot)| context == "far" || boot == "boot-2"));
    // Later snapshots of the boot queue nothing, whether they show the tokens or not.
    state.observe_snapshot(&LOCAL, &snapshot("boot-2", &[("a", Some("kund")), ("d", None)]));
    state.observe_snapshot(&LOCAL, &snapshot("boot-2", &[("a", None)]));
    assert!(state.take_queued_reports(&LOCAL).is_empty());
}

#[test]
fn cleared_contexts_are_dropped_unless_a_move_is_on_its_way() {
    let mut state = enabled();
    let tagged = snapshot("boot-1", &[("a", Some("kund")), ("b", Some("kund"))]);
    let cleared = snapshot("boot-1", &[("a", None), ("b", None)]);
    state.observe_snapshot(&LOCAL, &tagged);
    state.set_pending(&LOCAL, "b", Some("privat".into()));
    assert!(state.observe_snapshot(&LOCAL, &cleared));
    assert_eq!(backups(&state), [("b".into(), "kund".into(), "boot-1".into())]);
    assert_eq!(state.workspace_context(&LOCAL, &cleared.workspaces[0]), None);
    assert_eq!(state.workspace_context(&LOCAL, &cleared.workspaces[1]), Some("privat"));
    assert!(!state.observe_snapshot(&LOCAL, &cleared));
}

#[test]
fn restarts_override_moves() {
    let mut state = enabled();
    state.observe_snapshot(&LOCAL, &snapshot("boot-1", &[("a", Some("kund"))]));
    state.set_pending(&LOCAL, "a", None);
    let restarted = snapshot("boot-2", &[("a", None)]);
    assert!(state.observe_snapshot(&LOCAL, &restarted));
    assert_eq!(state.workspace_context(&LOCAL, &restarted.workspaces[0]), Some("kund"));
    assert_eq!(state.take_queued_reports(&LOCAL).len(), 1);
}

#[test]
fn snapshots_settle_at_once() {
    let mut state = enabled();
    let shown = snapshot("boot-1", &[("a", Some("kund")), ("b", None), ("c", Some("privat"))]);
    state.set_pending(&LOCAL, "b", None);
    state.set_pending(&LOCAL, "c", Some("privat".into()));
    state.set_pending(&LOCAL, "gone", Some("privat".into()));
    assert!(state.observe_snapshot(&LOCAL, &shown));
    assert!(state.pending().is_empty());
    let once = state.clone();
    assert!(!state.observe_snapshot(&LOCAL, &shown));
    assert_eq!(state.pending(), once.pending());
    assert_eq!(state.assignments(), once.assignments());
    assert_eq!(state.known(), once.known());
    assert_eq!(state.to_preferences(), once.to_preferences());
    // Another boot with the same tokens changes the backups.
    assert!(state.observe_snapshot(
        &LOCAL,
        &snapshot("boot-2", &[("a", Some("kund")), ("b", None), ("c", Some("privat"))])
    ));
}

#[test]
fn changes_of_a_repeated_workspace_are_noticed_one_by_one() {
    let mut state = enabled();
    let twice = snapshot("boot-1", &[("a", Some("kund")), ("a", None)]);
    assert!(state.observe_snapshot(&LOCAL, &twice));
    assert!(state.assignments().is_empty());
    let once = state.to_preferences();
    assert!(state.observe_snapshot(&LOCAL, &twice));
    assert_eq!(state.to_preferences(), once);
}

#[test]
fn contexts_in_use_have_a_tab() {
    let mut state = enabled();
    let shown = snapshot("boot-1", &[("a", Some("kund")), ("b", None), ("c", Some("ops"))]);
    state.set_pending(&LOCAL, "b", Some("privat".into()));
    state.observe_snapshot(&LOCAL, &shown);
    let tabs = state.tabs();
    for workspace in &shown.workspaces {
        let context = state.workspace_context(&LOCAL, workspace).expect("context");
        assert!(tabs.contains(&ContextTab::Named(context.into())));
    }
}

#[test]
fn preferences_are_sorted() {
    let mut state = enabled();
    let shown = snapshot("boot-1", &[("b", Some("z")), ("a", Some("y"))]);
    state.observe_snapshot(&ssh("x"), &shown);
    state.observe_snapshot(&LOCAL, &shown);
    state.set_active(ActiveContext::All);
    let saved = state.to_preferences().expect("preferences");
    assert_eq!(saved.active, Some(ClientContextSelection::All));
    assert_eq!(saved.known, ["y", "z"]);
    let keys = saved
        .workspaces
        .iter()
        .map(|entry| (entry.endpoint.clone(), entry.workspace_id.clone()))
        .collect::<Vec<_>>();
    let mut sorted = keys.clone();
    sorted.sort();
    assert_eq!(keys.len(), 4);
    assert_eq!(keys, sorted);
}

#[test]
fn an_untouched_state_has_nothing_to_save() {
    assert_eq!(enabled().to_preferences(), None);
    let mut state = enabled();
    state.set_active(ActiveContext::All);
    assert_eq!(
        state.to_preferences(),
        Some(ClientContextPreferences {
            active: Some(ClientContextSelection::All),
            known: vec![],
            workspaces: vec![],
        })
    );
    state.set_active(ActiveContext::Default);
    assert_eq!(state.to_preferences(), None);
}

fn saved_context(workspace_id: &str, context: &str) -> ClientWorkspaceContext {
    ClientWorkspaceContext {
        endpoint: "local".into(),
        boot_id: "boot-1".into(),
        workspace_id: workspace_id.into(),
        context: context.into(),
    }
}

#[test]
fn preferences_are_brought_into_form() {
    let saved = ClientContextPreferences {
        active: Some(ClientContextSelection::Named { name: " ops ".into() }),
        known: vec![" kund ".into(), "all".into(), "".into(), "default".into()],
        workspaces: vec![
            saved_context("a", " privat "),
            saved_context("b", " "),
            saved_context("c", "all"),
        ],
    };
    let state = ContextState::new(Some("context".into()), "default", Some(&saved));
    assert_eq!(state.active(), &named("ops"));
    assert_eq!(state.known(), ["kund", "ops", "privat"]);
    assert_eq!(
        backups(&state),
        [
            ("a".into(), "privat".into(), "boot-1".into()),
            ("c".into(), "all".into(), "boot-1".into()),
        ]
    );
    // From here on nothing changes any more.
    let again = state.to_preferences().expect("preferences");
    let restored = ContextState::new(Some("context".into()), "default", Some(&again));
    assert_eq!(restored.active(), state.active());
    assert_eq!(restored.known(), state.known());
    assert_eq!(restored.assignments(), state.assignments());
    assert_eq!(restored.to_preferences(), Some(again));
    // A built-in label is not restored as the active context.
    let saved = ClientContextPreferences {
        active: Some(ClientContextSelection::Named { name: "all".into() }),
        known: vec!["kund".into()],
        workspaces: vec![],
    };
    let state = ContextState::new(Some("context".into()), "default", Some(&saved));
    assert_eq!(state.active(), &ActiveContext::Default);
    let saved = ClientContextPreferences {
        active: Some(ClientContextSelection::Default),
        ..ClientContextPreferences::default()
    };
    let state = ContextState::new(Some("context".into()), "default", Some(&saved));
    assert_eq!(state.active(), &ActiveContext::Default);
    assert_eq!(state.to_preferences(), None);
}

#[test]
fn names_out_of_form_do_not_come_back_as_they_were() {
    let mut state = enabled();
    assert!(state.set_active(named(" ops ")));
    assert_eq!(state.known(), [" ops "]);
    let saved = state.to_preferences().expect("preferences");
    let restored = ContextState::new(Some("context".into()), "default", Some(&saved));
    assert_eq!(restored.active(), &named("ops"));
    assert_eq!(restored.known(), ["ops"]);
}

#[test]
fn views_carry_their_endpoint() {
    let mut state = enabled();
    let shown = snapshot("boot-1", &[("a", None), ("a", Some("kund")), ("b", Some("kund"))]);
    state.set_pending(&LOCAL, "b", None);
    let far = ssh("far");
    let local_view = state.view(&LOCAL).expect("view");
    let far_view = state.view(&far).expect("view");
    // The first workspace with an id counts.
    assert!(local_view.workspace_id_visible(&shown, "a"));
    assert!(!local_view.workspace_visible(&shown.workspaces[1]));
    assert!(local_view.workspace_id_visible(&shown, "b"));
    assert!(!far_view.workspace_id_visible(&shown, "b"));
    assert!(!local_view.workspace_id_visible(&shown, "c"));
    assert_eq!(ContextState::key(&LOCAL, "a"), (LOCAL.storage_key(), "a".to_owned()));
}
