//! The context state: what it shows, what it follows, and what it saves.

use context_tabs::contexts::{ActiveContext, ContextState, ContextTab, QueuedContextReport};
use context_tabs::protocol::{
    ClientEndpointId, ClientShellSnapshot, ClientShellWorkspace, ProfileId,
};

fn workspace(id: &str, context: Option<&str>) -> ClientShellWorkspace {
    ClientShellWorkspace {
        workspace_id: id.into(),
        tokens: context
            .map(|context| vec![("context".to_owned(), context.to_owned())])
            .unwrap_or_default(),
    }
}

fn snapshot(boot_id: &str, workspaces: Vec<ClientShellWorkspace>) -> ClientShellSnapshot {
    ClientShellSnapshot { boot_id: boot_id.into(), workspaces }
}

fn enabled() -> ContextState {
    ContextState::new(Some("context".into()), "default", None)
}

fn visible_ids(state: &ContextState, snapshot: &ClientShellSnapshot) -> Vec<String> {
    snapshot
        .workspaces
        .iter()
        .filter(|workspace| state.workspace_visible(&ClientEndpointId::Local, workspace))
        .map(|workspace| workspace.workspace_id.clone())
        .collect()
}

#[test]
fn disabled_state_shows_everything_and_tracks_nothing() {
    let mut state = ContextState::new(None, "default", None);
    let snapshot = snapshot(
        "boot-1",
        vec![workspace("a", Some("kund")), workspace("b", None)],
    );
    assert!(!state.enabled());
    assert!(state.view(&ClientEndpointId::Local).is_none());
    assert!(!state.observe_snapshot(&ClientEndpointId::Local, &snapshot));
    assert_eq!(state.known().len(), 0);
    assert_eq!(visible_ids(&state, &snapshot), ["a", "b"]);
    assert!(state.to_preferences().is_none());
}

#[test]
fn workspaces_without_token_belong_to_default() {
    let mut state = enabled();
    let snapshot = snapshot(
        "boot-1",
        vec![
            workspace("a", Some("kund")),
            workspace("b", None),
            workspace("c", Some("default")),
        ],
    );
    state.observe_snapshot(&ClientEndpointId::Local, &snapshot);
    assert_eq!(state.known(), ["kund"]);
    assert_eq!(visible_ids(&state, &snapshot), ["b", "c"]);
    state.set_active(ActiveContext::Named("kund".into()));
    assert_eq!(visible_ids(&state, &snapshot), ["a"]);
    state.set_active(ActiveContext::All);
    assert_eq!(visible_ids(&state, &snapshot), ["a", "b", "c"]);
}

#[test]
fn tabs_list_default_known_and_all_in_order() {
    let mut state = enabled();
    state.add_known("privat");
    state.add_known("kund");
    state.add_known(" ");
    state.add_known("all");
    state.add_known("default");
    assert_eq!(
        state.tabs(),
        [
            ContextTab::New,
            ContextTab::Default,
            ContextTab::Named("kund".into()),
            ContextTab::Named("privat".into()),
            ContextTab::All,
        ]
    );
    assert!(state.cycle_active(1));
    assert_eq!(state.active(), &ActiveContext::Named("kund".into()));
    assert!(state.cycle_active(-2));
    assert_eq!(state.active(), &ActiveContext::All);
    assert!(state.cycle_active(1));
    assert_eq!(state.active(), &ActiveContext::Default);
}

#[test]
fn pending_moves_override_the_snapshot_until_confirmed() {
    let mut state = enabled();
    let local = ClientEndpointId::Local;
    let before = snapshot("boot-1", vec![workspace("a", Some("kund"))]);
    state.observe_snapshot(&local, &before);
    state.set_active(ActiveContext::Named("kund".into()));
    state.set_pending(&local, "a", Some("privat".into()));
    assert!(visible_ids(&state, &before).is_empty());
    state.set_active(ActiveContext::Named("privat".into()));
    assert_eq!(visible_ids(&state, &before), ["a"]);
    // A stale snapshot keeps the override; the confirming one clears it.
    state.observe_snapshot(&local, &before);
    assert_eq!(visible_ids(&state, &before), ["a"]);
    let after = snapshot("boot-1", vec![workspace("a", Some("privat"))]);
    state.observe_snapshot(&local, &after);
    assert_eq!(visible_ids(&state, &after), ["a"]);
    assert!(state.pending().is_empty());
    // Moving to default clears the token and confirms on the empty snapshot.
    state.set_pending(&local, "a", None);
    state.set_active(ActiveContext::Default);
    assert_eq!(visible_ids(&state, &after), ["a"]);
    let cleared = snapshot("boot-1", vec![workspace("a", None)]);
    assert!(state.observe_snapshot(&local, &cleared));
    assert!(state.pending().is_empty());
    assert!(state.assignments().is_empty());
}

#[test]
fn server_restart_requeues_the_backup_but_a_plain_clear_does_not() {
    let mut state = enabled();
    let local = ClientEndpointId::Local;
    state.observe_snapshot(
        &local,
        &snapshot("boot-1", vec![workspace("a", Some("kund"))]),
    );
    // Same boot, token gone: someone cleared it on purpose.
    state.observe_snapshot(&local, &snapshot("boot-1", vec![workspace("a", None)]));
    assert!(state.take_queued_reports(&local).is_empty());
    assert!(state.assignments().is_empty());

    state.observe_snapshot(
        &local,
        &snapshot("boot-1", vec![workspace("a", Some("kund"))]),
    );
    let restarted = snapshot("boot-2", vec![workspace("a", None)]);
    assert!(state.observe_snapshot(&local, &restarted));
    assert_eq!(
        state.take_queued_reports(&local),
        [QueuedContextReport {
            endpoint_id: local.clone(),
            workspace_id: "a".into(),
            context: Some("kund".into()),
        }]
    );
    assert!(state.take_queued_reports(&local).is_empty());
    state.set_active(ActiveContext::Named("kund".into()));
    assert_eq!(visible_ids(&state, &restarted), ["a"]);
    // A second snapshot from the same boot must not queue again.
    assert!(!state.observe_snapshot(&local, &restarted));
    assert!(state.take_queued_reports(&local).is_empty());
}

#[test]
fn closed_workspaces_drop_their_backup() {
    let mut state = enabled();
    let local = ClientEndpointId::Local;
    state.observe_snapshot(
        &local,
        &snapshot(
            "boot-1",
            vec![workspace("a", Some("kund")), workspace("b", Some("kund"))],
        ),
    );
    assert!(state.observe_snapshot(
        &local,
        &snapshot("boot-1", vec![workspace("b", Some("kund"))])
    ));
    assert_eq!(state.assignments().len(), 1);
    let ssh = ClientEndpointId::Ssh(ProfileId { id: "7f3c".into() });
    state.observe_snapshot(
        &ssh,
        &snapshot("boot-9", vec![workspace("z", Some("privat"))]),
    );
    // Another endpoint's snapshot never touches local assignments.
    state.observe_snapshot(&ssh, &snapshot("boot-9", vec![]));
    assert_eq!(state.assignments().len(), 1);
}

#[test]
fn rename_and_remove_follow_active_pending_and_backups() {
    let mut state = enabled();
    let local = ClientEndpointId::Local;
    state.observe_snapshot(
        &local,
        &snapshot("boot-1", vec![workspace("a", Some("kund"))]),
    );
    state.set_active(ActiveContext::Named("kund".into()));
    state.set_pending(&local, "b", Some("kund".into()));
    assert!(state.rename_known("kund", "  kunden  "));
    assert!(!state.rename_known("kunden", "all"));
    assert!(!state.rename_known("missing", "x"));
    assert_eq!(state.active(), &ActiveContext::Named("kunden".into()));
    assert_eq!(state.known(), ["kunden"]);
    assert_eq!(state.pending().entry(0).1, Some("kunden".to_owned()));
    assert_eq!(state.assignments().entry(0).1.context, "kunden");

    assert!(state.remove_known("kunden"));
    assert_eq!(state.active(), &ActiveContext::Default);
    assert_eq!(state.known().len(), 0);
    assert!(state.assignments().is_empty());
    assert_eq!(state.pending().entry(0).1, None);
}

#[test]
fn preferences_round_trip() {
    let mut state = enabled();
    let local = ClientEndpointId::Local;
    state.observe_snapshot(
        &local,
        &snapshot("boot-1", vec![workspace("a", Some("kund"))]),
    );
    state.add_known("privat");
    state.set_active(ActiveContext::Named("privat".into()));
    let saved = state.to_preferences().expect("non-empty preferences");
    let decoded = saved.clone();
    assert_eq!(decoded, saved);
    let restored = ContextState::new(Some("context".into()), "default", Some(&decoded));
    assert_eq!(restored.active(), &ActiveContext::Named("privat".into()));
    assert_eq!(restored.known(), ["kund", "privat"]);
    assert_eq!(restored.assignments(), state.assignments());
    assert_eq!(restored.to_preferences(), Some(saved));
    // Without saved contexts the state starts empty.
    let legacy = ContextState::new(Some("context".into()), "default", None);
    assert!(legacy.to_preferences().is_none());
}

#[test]
fn reserved_names_are_rejected_and_config_reload_reapplies_default() {
    let mut state = enabled();
    assert!(!state.set_active(ActiveContext::Named("default".into())));
    assert!(!state.set_active(ActiveContext::Named("all".into())));
    assert!(state.set_active(ActiveContext::Named("work".into())));
    state.apply_config(Some("ctx".into()), "work");
    assert_eq!(state.active(), &ActiveContext::Default);
    assert_eq!(state.known().len(), 0);
    assert_eq!(state.token_key(), Some("ctx"));
    state.apply_config(None, "work");
    assert!(!state.enabled());
}
