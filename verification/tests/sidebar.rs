//! What a sidebar shows of the context state: rows, agents, and the tab row above them.

use context_tabs::contexts::{
    ActiveContext, ContextState, ContextTab, CONTEXT_METADATA_SOURCE,
};
use context_tabs::protocol::{
    ClientEndpointId, ClientShellSnapshot, ClientShellWorkspace, ProfileId,
};
use context_tabs::tab_row::layout_tab_row;
use unicode_width::UnicodeWidthStr;

/// ws_1 (no token), ws_2 kund, ws_3 privat, ws_4 kund.
fn contextual_snapshot() -> ClientShellSnapshot {
    ClientShellSnapshot {
        boot_id: "boot-1".into(),
        workspaces: [None, Some("kund"), Some("privat"), Some("kund")]
            .into_iter()
            .enumerate()
            .map(|(index, context)| ClientShellWorkspace {
                workspace_id: format!("ws_{}", index + 1),
                tokens: context
                    .map(|context| vec![("context".to_owned(), context.to_owned())])
                    .unwrap_or_default(),
            })
            .collect(),
    }
}

/// Agents on ws_1 and ws_2, as pane and workspace.
const AGENTS: [(&str, &str); 2] = [("pane_1", "ws_1"), ("pane_2", "ws_2")];

fn contextual_state(token: Option<&str>) -> ContextState {
    let mut state = ContextState::new(token.map(str::to_owned), "default", None);
    state.observe_snapshot(&ClientEndpointId::Local, &contextual_snapshot());
    state
}

fn remote_endpoint() -> ClientEndpointId {
    ClientEndpointId::Ssh(ProfileId { id: "dev@build.example".into() })
}

fn endpoint_workspaces(
    state: &ContextState,
    endpoint: &ClientEndpointId,
    snapshot: &ClientShellSnapshot,
) -> Vec<String> {
    let view = state.view(endpoint);
    snapshot
        .workspaces
        .iter()
        .filter(|workspace| match &view {
            Some(view) => view.workspace_visible(workspace),
            None => true,
        })
        .map(|workspace| workspace.workspace_id.clone())
        .collect()
}

fn endpoint_agents(
    state: &ContextState,
    endpoint: &ClientEndpointId,
    snapshot: &ClientShellSnapshot,
) -> Vec<String> {
    let view = state.view(endpoint);
    AGENTS
        .into_iter()
        .filter(|(_, workspace_id)| match &view {
            Some(view) => view.workspace_id_visible(snapshot, workspace_id),
            None => true,
        })
        .map(|(pane_id, _)| pane_id.to_owned())
        .collect()
}

fn visible_workspaces(state: &ContextState) -> Vec<String> {
    endpoint_workspaces(state, &ClientEndpointId::Local, &contextual_snapshot())
}

fn visible_agents(state: &ContextState) -> Vec<String> {
    endpoint_agents(state, &ClientEndpointId::Local, &contextual_snapshot())
}

/// The cells of the tab row: what each one stands for, its text, and its columns.
fn tab_cells(state: &ContextState, width: u16) -> Vec<(Option<ContextTab>, String, u16, u16)> {
    let tabs = state.tabs();
    let labels = tabs
        .iter()
        .map(|tab| tab.label(state.default_name()))
        .collect::<Vec<_>>();
    let active = tabs
        .iter()
        .position(|tab| tab.is_active(state.active()))
        .expect("active tab");
    layout_tab_row(&labels, active, width)
        .into_iter()
        .map(|cell| {
            let right = cell.x + UnicodeWidthStr::width(cell.text.as_str()) as u16;
            (cell.tab.map(|index| tabs[index].clone()), cell.text, cell.x, right)
        })
        .collect()
}

/// The tab row one column into the sidebar, or its plain heading.
fn heading_row(state: &ContextState, width: u16) -> String {
    if !state.enabled() {
        return " spaces".to_owned();
    }
    let mut row = " ".to_owned();
    for (_, text, x, _) in tab_cells(state, width) {
        while UnicodeWidthStr::width(row.as_str()) < usize::from(x) + 1 {
            row.push(' ');
        }
        row.push_str(&text);
    }
    row
}

#[test]
fn unset_token_leaves_spaces_agents_and_navigation_unchanged() {
    let state = contextual_state(None);
    assert!(!state.enabled());
    assert_eq!(visible_workspaces(&state), ["ws_1", "ws_2", "ws_3", "ws_4"]);
    assert_eq!(visible_agents(&state), ["pane_1", "pane_2"]);
    // The third row is the third workspace.
    assert_eq!(visible_workspaces(&state).get(2).map(String::as_str), Some("ws_3"));
}

#[test]
fn default_tab_shows_only_untagged_workspaces() {
    let state = contextual_state(Some("context"));
    assert_eq!(state.active(), &ActiveContext::Default);
    assert_eq!(visible_workspaces(&state), ["ws_1"]);
    assert_eq!(visible_agents(&state), ["pane_1"]);
    assert_eq!(state.known(), ["kund", "privat"]);
}

#[test]
fn named_tab_filters_rows_agents_number_keys_and_cycling() {
    let mut state = contextual_state(Some("context"));
    state.set_active(ActiveContext::Named("kund".into()));
    let rows = visible_workspaces(&state);
    assert_eq!(rows, ["ws_2", "ws_4"]);
    assert_eq!(visible_agents(&state), ["pane_2"]);
    // The first row is a visible workspace.
    assert_eq!(rows.first().map(String::as_str), Some("ws_2"));
    // Numbers count visible rows only: 2 is ws_4, 3 does not exist.
    assert_eq!(rows.get(1).map(String::as_str), Some("ws_4"));
    assert!(rows.get(2).is_none());
    // The rows are what the tab fans out to.
    assert_eq!(
        state.workspaces_in_context(&ClientEndpointId::Local, &contextual_snapshot(), "kund"),
        rows
    );
    // Agents of hidden workspaces are hidden too.
    let local = ClientEndpointId::Local;
    let view = state.view(&local).expect("view");
    assert!(!view.workspace_id_visible(&contextual_snapshot(), "ws_1"));
    assert!(!view.workspace_id_visible(&contextual_snapshot(), "ws_7"));
}

#[test]
fn all_tab_shows_every_workspace() {
    let mut state = contextual_state(Some("context"));
    state.set_active(ActiveContext::All);
    assert_eq!(visible_workspaces(&state), ["ws_1", "ws_2", "ws_3", "ws_4"]);
    assert_eq!(visible_agents(&state), ["pane_1", "pane_2"]);
}

#[test]
fn hidden_worktree_root_does_not_group_visible_children() {
    // ws_1 is the root of a repository whose worktrees are ws_2 and ws_4.
    let mut state = contextual_state(Some("context"));
    state.set_active(ActiveContext::Named("kund".into()));
    let rows = visible_workspaces(&state);
    assert_eq!(rows, ["ws_2", "ws_4"]);
    assert!(rows.iter().all(|row| row != "ws_1"));
}

#[test]
fn machines_sidebar_filters_every_endpoint() {
    let mut state = contextual_state(Some("context"));
    let local = ClientEndpointId::Local;
    let remote = remote_endpoint();
    let mut projected = contextual_snapshot();
    projected.boot_id = "remote-boot".into();
    projected.workspaces[0].tokens = vec![("context".to_owned(), "privat".to_owned())];
    state.observe_snapshot(&remote, &projected);
    state.set_active(ActiveContext::Named("privat".into()));
    let mut rows = Vec::new();
    for (endpoint, snapshot) in [(&local, &contextual_snapshot()), (&remote, &projected)] {
        for workspace_id in endpoint_workspaces(&state, endpoint, snapshot) {
            rows.push((endpoint.clone(), workspace_id));
        }
    }
    assert_eq!(
        rows,
        [
            (ClientEndpointId::Local, "ws_3".to_owned()),
            (remote.clone(), "ws_1".to_owned()),
            (remote.clone(), "ws_3".to_owned()),
        ]
    );
    assert!(endpoint_agents(&state, &local, &contextual_snapshot()).is_empty());
    assert_eq!(endpoint_agents(&state, &remote, &projected), ["pane_1"]);
}

#[test]
fn tab_row_replaces_the_spaces_heading_and_registers_hits() {
    let state = contextual_state(None);
    assert_eq!(heading_row(&state, 30), " spaces");

    let state = contextual_state(Some("context"));
    assert_eq!(heading_row(&state, 30), " + default kund privat all");
    let cells = tab_cells(&state, 30);
    assert_eq!(
        cells.iter().filter_map(|cell| cell.0.clone()).collect::<Vec<_>>(),
        [
            ContextTab::New,
            ContextTab::Default,
            ContextTab::Named("kund".into()),
            ContextTab::Named("privat".into()),
            ContextTab::All,
        ]
    );
    let (tab, _, x, right) = &cells[1];
    assert_eq!((*x + 1, right - x), (3, 7));
    assert!(tab.as_ref().expect("tab").is_active(state.active()));
    let (tab, _, x, _) = &cells[2];
    assert_eq!(*x + 1, 11);
    assert!(!tab.as_ref().expect("tab").is_active(state.active()));
}

#[test]
fn narrow_sidebar_truncates_but_keeps_the_active_tab() {
    let mut state = contextual_state(Some("context"));
    for name in ["arkitekturprojektet", "kundleveransen"] {
        state.add_known(name);
    }
    state.set_active(ActiveContext::Named("kundleveransen".into()));
    let cells = tab_cells(&state, 18);
    let row = heading_row(&state, 18).chars().take(17).collect::<String>();
    assert!(row.contains("kundleveransen"), "{row:?}");
    assert!(row.chars().count() <= 17, "{row:?}");
    let active = cells
        .iter()
        .find(|cell| cell.0 == Some(ContextTab::Named("kundleveransen".into())))
        .expect("active tab hit");
    assert!(active.3 <= 18);
    assert!(cells.iter().all(|cell| cell.3 <= 18));
}

#[test]
fn machines_sidebar_draws_the_tab_row_too() {
    let mut state = contextual_state(Some("context"));
    let remote = remote_endpoint();
    let mut projected = contextual_snapshot();
    projected.boot_id = "remote-boot".into();
    state.observe_snapshot(&remote, &projected);
    assert_eq!(heading_row(&state, 30), " + default kund privat all");
    assert_eq!(tab_cells(&state, 30).len(), 5);
}

#[test]
fn clicking_a_tab_switches_the_context_and_persists_it() {
    let mut state = contextual_state(Some("context"));
    let kund = tab_cells(&state, 30)
        .into_iter()
        .find(|cell| cell.0 == Some(ContextTab::Named("kund".into())))
        .and_then(|cell| cell.0)
        .expect("tab hit");
    assert!(state.set_active(kund.to_active().expect("selectable tab")));
    assert!(state.take_queued_reports(&ClientEndpointId::Local).is_empty());
    assert_eq!(visible_workspaces(&state), ["ws_2", "ws_4"]);

    let saved = state.to_preferences().expect("saved contexts");
    let reloaded = ContextState::new(Some("context".into()), "default", Some(&saved));
    assert_eq!(reloaded.active(), &ActiveContext::Named("kund".into()));
    assert_eq!(reloaded.known(), ["kund", "privat"]);
}

#[test]
fn plus_tab_prompts_for_a_new_context_and_activates_it() {
    let mut state = contextual_state(Some("context"));
    let plus = tab_cells(&state, 30).remove(0).0.expect("tab hit");
    assert_eq!(plus, ContextTab::New);
    assert!(plus.to_active().is_none());
    let name = ContextState::normalize_name("ops").expect("name");
    assert!(state.set_active(ActiveContext::Named(name)));
    assert_eq!(state.active(), &ActiveContext::Named("ops".into()));
    assert_eq!(state.known(), ["kund", "ops", "privat"]);
    assert!(visible_workspaces(&state).is_empty());

    // Built-in labels are refused and leave the selection alone.
    assert!(state.is_reserved_name("all"));
    assert!(!state.set_active(ActiveContext::Named("all".into())));
    assert_eq!(state.active(), &ActiveContext::Named("ops".into()));
}

#[test]
fn context_keys_cycle_through_the_tabs() {
    let mut state = contextual_state(Some("context"));
    state.cycle_active(1);
    assert_eq!(state.active(), &ActiveContext::Named("kund".into()));
    state.cycle_active(1);
    state.cycle_active(1);
    assert_eq!(state.active(), &ActiveContext::All);
    state.cycle_active(1);
    assert_eq!(state.active(), &ActiveContext::Default);
    state.cycle_active(-1);
    assert_eq!(state.active(), &ActiveContext::All);

    // Nothing is selected while contexts are off.
    let state = contextual_state(None);
    assert!(!state.enabled());
    assert_eq!(state.active(), &ActiveContext::Default);
}

#[test]
fn new_workspace_under_a_named_tab_reports_the_context() {
    let mut state = contextual_state(Some("context"));
    let local = ClientEndpointId::Local;
    state.set_active(ActiveContext::Named("kund".into()));
    assert_eq!(CONTEXT_METADATA_SOURCE, "herdr-client:context-tabs");
    // The workspace is created in the active context, and reported to be in it.
    let context = state.active().named().map(str::to_owned);
    assert_eq!(context.as_deref(), Some("kund"));
    state.set_pending(&local, "ws_9", context);

    // The next snapshot still lacks the token; the optimistic override keeps ws_9 visible.
    let mut projected = contextual_snapshot();
    projected.workspaces.push(ClientShellWorkspace {
        workspace_id: "ws_9".into(),
        tokens: Vec::new(),
    });
    state.observe_snapshot(&local, &projected);
    assert_eq!(
        endpoint_workspaces(&state, &local, &projected),
        ["ws_2", "ws_4", "ws_9"]
    );

    // Under the default tab the workspace stays untagged.
    state.set_active(ActiveContext::Default);
    assert!(state.active().named().is_none());
    projected.workspaces.push(ClientShellWorkspace {
        workspace_id: "ws_10".into(),
        tokens: Vec::new(),
    });
    state.observe_snapshot(&local, &projected);
    assert!(state.take_queued_reports(&local).is_empty());
    assert_eq!(
        endpoint_workspaces(&state, &local, &projected),
        ["ws_1", "ws_10"]
    );
}
