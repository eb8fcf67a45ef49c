use mailman::http::failed_response;
use mailman::listing::group_items;
use mailman::models::{
    AppConfig, Endpoint, Environment, KeyValue, PersistedRequestTab, RequestEditorTab,
    ResponseScript, ResponseState, ResponseViewTab, WorkspaceUiState,
};
use mailman::requests::{pending_question, saved_message};
use mailman::session::{
    check_export_password, check_master_password, AuthState, SessionPlan, SessionState, NEVER,
};
use mailman::storage::{load_core_data, CoreData};
use mailman::tabs::RequestTab;
use mailman::workspace::{AppPhase, PendingRequestAction, Workspace};

fn endpoint(id: &str, collection: &str, name: &str) -> Endpoint {
    let mut endpoint =
        Endpoint::with_defaults(id.to_owned(), name, "GET", "https://example.com/a");
    endpoint.collection = collection.to_owned();
    endpoint.folder_path = String::new();
    endpoint
}

fn environment(id: &str, name: &str, variables: Vec<KeyValue>) -> Environment {
    Environment {
        id: id.to_owned(),
        name: name.to_owned(),
        file_name: format!("{id}.json"),
        variables,
    }
}

fn core_of(endpoints: Vec<Endpoint>) -> CoreData {
    load_core_data(endpoints, None, None, None)
}

/// A workspace with three saved endpoints, the first of which is open, and two environments.
fn ready() -> Workspace {
    let endpoints = vec![
        endpoint("ep-1", "Core", "Users"),
        endpoint("ep-2", "Core", "Orders"),
        endpoint("ep-3", "Auth", "Login"),
    ];
    let mut ws = Workspace::open(core_of(endpoints), None, true, String::new(), 0);
    let environments = vec![
        environment("env-1", "dev", vec![KeyValue::new("host", "a"), KeyValue::new(" host ", "b")]),
        environment("env-2", "prod", vec![]),
    ];
    ws.selected_environment_id = None;
    assert!(ws.complete_unlock([1_u8; 32], environments, false, 5));
    ws.phase = AppPhase::Ready;
    ws
}

fn persisted(id: &str, saved: Option<&str>, dirty: bool, draft: Endpoint) -> PersistedRequestTab {
    PersistedRequestTab {
        id: id.to_owned(),
        saved_endpoint_id: saved.map(str::to_owned),
        draft,
        is_dirty: dirty,
        editor_tab: RequestEditorTab::Headers,
        response_view_tab: ResponseViewTab::Raw,
        response: ResponseState::default(),
        scripts_ran: 1,
    }
}

#[test]
fn kept_tabs_are_restored() {
    let saved = vec![endpoint("ep-1", "Core", "Users")];
    let mut draft = endpoint("ep-1", "Core", "Users");
    draft.name = "Draft".to_owned();
    let ui = WorkspaceUiState {
        active_tab_id: Some("tab-2".to_owned()),
        open_tabs: vec![
            persisted("tab-1", Some("ep-1"), false, endpoint("ep-1", "Core", "Old")),
            persisted("tab-2", Some("gone"), true, draft),
            persisted("tab-3", Some("gone"), false, endpoint("gone", "Core", "Gone")),
        ],
    };
    let ws = Workspace::open(core_of(saved), Some(ui), true, String::new(), 0);
    assert_eq!(ws.open_request_tabs.len(), 2);
    assert_eq!(ws.open_request_tabs[0].draft.name, "Users");
    assert_eq!(ws.open_request_tabs[1].draft.name, "Draft");
    assert!(ws.open_request_tabs[1].is_dirty);
    assert_eq!(ws.active_request_tab_id.as_deref(), Some("tab-2"));
    assert_eq!(ws.open_request_tabs[0].editor_tab, RequestEditorTab::Headers);

    let again = ws.current_workspace_ui_state();
    assert_eq!(again.open_tabs[1], persisted("tab-2", Some("gone"), true, {
        let mut draft = endpoint("ep-1", "Core", "Users");
        draft.name = "Draft".to_owned();
        draft
    }));
}

#[test]
fn the_selected_request_is_shown_where_no_tab_was_kept() {
    let mut config = AppConfig::default();
    config.selected_endpoint_id = Some("ep-2".to_owned());
    let data = load_core_data(
        vec![endpoint("ep-1", "Core", "A"), endpoint("ep-2", "Core", "B")],
        None,
        Some(config),
        None,
    );
    let ws = Workspace::open(data, None, false, "hello".to_owned(), 3);
    assert_eq!(ws.phase, AppPhase::SetupPassword);
    assert_eq!(ws.status_line, "hello");
    assert_eq!(ws.open_request_tabs.len(), 1);
    assert_eq!(ws.open_request_tabs[0].draft.id, "ep-2");
    assert!(ws.open_request_tabs[0].id.starts_with("tab-"));
    assert_eq!(ws.active_request_tab_id.as_ref(), Some(&ws.open_request_tabs[0].id));
}

#[test]
fn selection_is_mended() {
    let mut ws = ready();
    assert_eq!(ws.selected_environment_id.as_deref(), Some("env-1"));
    ws.selected_environment_id = Some("env-9".to_owned());
    ws.active_request_tab_id = Some("tab-9".to_owned());
    ws.ensure_selected_ids();
    assert_eq!(ws.selected_environment_id.as_deref(), Some("env-1"));
    assert_eq!(ws.active_request_tab_index(), Some(0));
    assert_eq!(ws.selected_environment_index(), Some(0));
}

#[test]
fn later_variables_count() {
    let ws = ready();
    let variables = ws.selected_environment_variables();
    assert_eq!(variables.get("host"), Some(&"b".to_owned()));
    assert_eq!(variables.get(" host "), None);
}

#[test]
fn saved_requests_are_opened_once() {
    let mut ws = ready();
    let first = ws.active_request_tab_id.clone();
    ws.open_saved_request_in_tab("ep-2", 10);
    assert_eq!(ws.open_request_tabs.len(), 2);
    assert!(ws.workspace_ui_dirty);
    assert_eq!(ws.workspace_ui_last_mutation, 10);
    ws.open_saved_request_in_tab("ep-1", 11);
    assert_eq!(ws.open_request_tabs.len(), 2);
    assert_eq!(ws.active_request_tab_id, first);
    ws.open_saved_request_in_tab("ep-9", 12);
    assert_eq!(ws.open_request_tabs.len(), 2);
    assert_eq!(ws.workspace_ui_last_mutation, 11);
}

#[test]
fn edited_requests_are_saved() {
    let mut ws = ready();
    let id = ws.active_request_tab_id.clone().expect("is open");
    ws.open_request_tabs[0].draft.url = "https://example.com/a?x=1".to_owned();
    ws.mark_active_request_dirty(20);
    assert!(ws.open_request_tabs[0].is_dirty);
    assert_eq!(ws.open_request_tabs[0].draft.url, "https://example.com/a");
    assert_eq!(ws.save_all_dirty_request_tabs(21), 1);
    assert!(!ws.open_request_tabs[0].is_dirty);
    let names: Vec<&str> = ws.saved_endpoints.iter().map(|e| e.name.as_str()).collect();
    assert_eq!(names, vec!["Login", "Orders", "Users"]);
    assert_eq!(ws.saved_endpoints[2].query_params, vec![KeyValue::new("x", "1")]);
    assert_eq!(ws.save_request_tabs(&vec![], 22), 0);
    assert_eq!(ws.workspace_ui_last_mutation, 21);
    assert_eq!(ws.save_request_tabs(&vec![id, "tab-9".to_owned()], 23), 1);
    assert_eq!(saved_message(0), "No dirty request tabs to save.");
    assert_eq!(saved_message(2), "Saved 2 request tab(s).");
    ws.finish_request_save();
    assert!(!ws.workspace_ui_dirty);
}

#[test]
fn new_requests_are_saved_behind_their_ids() {
    let mut ws = ready();
    ws.add_endpoint(30);
    let tab = ws.open_request_tabs.last().expect("is open");
    assert!(tab.is_dirty);
    assert_eq!(tab.saved_endpoint_id, None);
    assert_eq!(tab.draft.url, "https://${api_host}/v1/health");
    assert!(tab.draft.id.starts_with("ep-"));
    assert_eq!(ws.active_request_tab_id.as_ref(), Some(&tab.id));
    assert_eq!(ws.save_all_dirty_request_tabs(31), 1);
    assert_eq!(ws.saved_endpoints.len(), 4);
}

#[test]
fn tabs_are_moved_and_renamed() {
    let mut ws = ready();
    ws.open_saved_request_in_tab("ep-2", 1);
    ws.open_saved_request_in_tab("ep-3", 2);
    let ids: Vec<String> = ws.open_request_tabs.iter().map(|tab| tab.draft.id.clone()).collect();
    assert_eq!(ids, vec!["ep-1", "ep-2", "ep-3"]);
    ws.open_request_tabs[0].id = "tab-a".to_owned();
    ws.move_request_tab("tab-a", 99, 3);
    let ids: Vec<String> = ws.open_request_tabs.iter().map(|tab| tab.draft.id.clone()).collect();
    assert_eq!(ids, vec!["ep-2", "ep-3", "ep-1"]);
    ws.move_request_tab("tab-a", 2, 4);
    ws.move_request_tab("tab-z", 0, 5);
    assert_eq!(ws.workspace_ui_last_mutation, 3);
    ws.rename_request_tab("tab-a", "  New name ", 6);
    assert_eq!(ws.open_request_tabs[2].draft.name, "New name");
    assert!(ws.open_request_tabs[2].is_dirty);
    ws.rename_request_tab("tab-z", "x", 7);
    assert_eq!(ws.workspace_ui_last_mutation, 6);
}

fn numbered(mut ws: Workspace) -> Workspace {
    ws.open_saved_request_in_tab("ep-2", 1);
    ws.open_saved_request_in_tab("ep-3", 2);
    for (i, tab) in ws.open_request_tabs.iter_mut().enumerate() {
        tab.id = format!("tab-{i}");
    }
    ws.active_request_tab_id = Some("tab-1".to_owned());
    ws.open_request_tabs[2].is_dirty = true;
    ws.open_request_tabs[2].draft.name = "Changed".to_owned();
    ws
}

fn open_ids(ws: &Workspace) -> Vec<&str> {
    ws.open_request_tabs.iter().map(|tab| tab.id.as_str()).collect()
}

#[test]
fn saved_tabs_are_closed() {
    let mut ws = numbered(ready());
    ws.close_all_saved_tabs(9);
    assert_eq!(open_ids(&ws), vec!["tab-2"]);
    assert_eq!(ws.active_request_tab_id.as_deref(), Some("tab-2"));
    assert_eq!(ws.status_line, "Closed 2 saved tabs.");
}

#[test]
fn closing_a_tab_leaves_the_others() {
    let mut ws = numbered(ready());
    ws.pending_request_action =
        Some(PendingRequestAction::CloseTab { tab_id: "tab-1".to_owned() });
    assert_eq!(ws.pending_request_action_target_tab_ids(), vec!["tab-1".to_owned()]);
    assert!(ws.pending_request_action_dirty_tab_ids().is_empty());
    let plan = ws.begin_pending_request_action(false, 9).expect("is pending");
    ws.resolve_pending_request_action(&plan, 10);
    assert_eq!(open_ids(&ws), vec!["tab-0", "tab-2"]);
    assert_eq!(ws.active_request_tab_id.as_deref(), Some("tab-0"));
    assert_eq!(ws.saved_endpoints.len(), 3);
    assert!(ws.open_request_tabs[1].is_dirty);
    assert!(ws.pending_request_action.is_some());
    ws.clear_pending_request_action();
    assert!(ws.begin_pending_request_action(true, 11).is_none());
}

#[test]
fn changes_are_saved_before_tabs_are_closed() {
    let mut ws = numbered(ready());
    ws.pending_request_action = Some(PendingRequestAction::CloseAll);
    let plan = ws.begin_pending_request_action(true, 9).expect("is pending");
    assert_eq!(plan.dirty_tab_ids, vec!["tab-2".to_owned()]);
    assert!(ws.saved_endpoints.iter().any(|e| e.name == "Changed"));
    ws.resolve_pending_request_action(&plan, 10);
    assert!(ws.open_request_tabs.is_empty());
    assert_eq!(ws.active_request_tab_id, None);
    assert_eq!(ws.saved_endpoints.len(), 3);
}

#[test]
fn the_active_request_is_deleted() {
    let mut ws = numbered(ready());
    ws.delete_selected_endpoint();
    assert_eq!(ws.pending_request_action, Some(PendingRequestAction::DeleteActive));
    let plan = ws.begin_pending_request_action(false, 9).expect("is pending");
    ws.resolve_pending_request_action(&plan, 10);
    assert_eq!(open_ids(&ws), vec!["tab-0", "tab-2"]);
    assert!(!ws.saved_endpoints.iter().any(|e| e.id == "ep-2"));
    ws.active_request_tab_id = None;
    ws.clear_pending_request_action();
    ws.delete_selected_endpoint();
    assert_eq!(ws.pending_request_action, None);
}

#[test]
fn all_requests_are_deleted() {
    let mut ws = numbered(ready());
    ws.delete_all_requests();
    assert_eq!(ws.pending_request_action_dirty_tab_ids(), vec!["tab-2".to_owned()]);
    let plan = ws.begin_pending_request_action(false, 9).expect("is pending");
    ws.resolve_pending_request_action(&plan, 10);
    assert!(ws.open_request_tabs.is_empty());
    assert!(ws.saved_endpoints.is_empty());
    assert_eq!(ws.active_request_tab_id, None);
}

#[test]
fn pending_actions_are_put_into_words() {
    let close = PendingRequestAction::CloseTab { tab_id: String::new() };
    assert_eq!(close.title(), "Close Request Tab");
    assert_eq!(close.save_label(), "Save");
    assert_eq!(PendingRequestAction::CloseAll.title(), "Close All Tabs");
    assert_eq!(PendingRequestAction::DeleteActive.title(), "Delete Request");
    assert_eq!(PendingRequestAction::DeleteAll.title(), "Delete All Requests");
    assert_eq!(PendingRequestAction::DeleteAll.save_label(), "Save All");
    assert_eq!(pending_question(0), "This action will apply immediately.");
    assert_eq!(pending_question(1), "There is 1 dirty request tab. Save it before continuing?");
    assert_eq!(pending_question(2), "There are dirty request tabs. Save them before continuing?");
}

#[test]
fn clean_tabs_follow_their_endpoints() {
    let mut ws = numbered(ready());
    ws.saved_endpoints.retain(|e| e.id != "ep-2");
    ws.saved_endpoints.iter_mut().for_each(|e| e.name = format!("{}!", e.name));
    ws.sync_clean_tabs_from_saved_endpoints();
    assert_eq!(open_ids(&ws), vec!["tab-0", "tab-2"]);
    assert_eq!(ws.open_request_tabs[0].draft.name, "Users!");
    assert_eq!(ws.open_request_tabs[1].draft.name, "Changed");
    let before = ws.current_workspace_ui_state();
    ws.sync_clean_tabs_from_saved_endpoints();
    assert_eq!(ws.current_workspace_ui_state(), before);
}

#[test]
fn environments_come_and_go() {
    let mut ws = ready();
    ws.add_environment("qa".to_owned(), 40);
    assert_eq!(ws.environments.len(), 3);
    assert_eq!(ws.environments[2].variables[1], KeyValue::new("token", "replace-me"));
    assert_eq!(ws.environments[2].file_name, format!("{}.json", ws.environments[2].id));
    assert_eq!(ws.selected_environment_id.as_ref(), Some(&ws.environments[2].id));
    assert_eq!(ws.last_mutation, 40);
    ws.delete_selected_environment(41);
    assert_eq!(ws.environments.len(), 2);
    assert_eq!(ws.selected_environment_id.as_deref(), Some("env-1"));
    ws.select_environment("env-2".to_owned(), 42);
    ws.delete_selected_environment(43);
    ws.delete_selected_environment(44);
    assert_eq!(ws.environments.len(), 1);
    assert_eq!(ws.status_line, "At least one environment must exist.");
    assert_eq!(ws.last_mutation, 43);
}

#[test]
fn changes_are_saved_after_a_while() {
    let mut ws = ready();
    ws.mark_dirty(1000);
    assert!(!ws.try_auto_save(1349));
    assert!(ws.try_auto_save(1350));
    assert_eq!(ws.config.selected_environment_id, ws.selected_environment_id);
    ws.finish_auto_save(Some("disk full".to_owned()));
    assert_eq!(ws.status_line, "Save failed: disk full");
    assert!(ws.dirty);
    ws.finish_auto_save(None);
    assert!(!ws.dirty);
    assert!(!ws.try_auto_save(9999));

    ws.mark_workspace_ui_dirty(2000);
    assert!(!ws.try_auto_save_workspace_ui(2100));
    assert!(ws.try_auto_save_workspace_ui(2350));
    ws.finish_auto_save_workspace_ui(Some("no".to_owned()));
    assert_eq!(ws.status_line, "Failed to persist tabs: no");
    ws.finish_auto_save_workspace_ui(None);
    assert!(!ws.try_auto_save_workspace_ui(9999));
    ws.phase = AppPhase::UnlockPassword;
    ws.mark_dirty(0);
    assert!(!ws.try_auto_save(9999));
}

#[test]
fn the_window_size_is_kept() {
    let mut ws = ready();
    ws.dirty = false;
    ws.sync_window_resolution(800, 600, 50);
    assert!(ws.dirty);
    assert_eq!((ws.config.window_width, ws.config.window_height), (Some(800), Some(600)));
    ws.dirty = false;
    ws.sync_window_resolution(800, 600, 51);
    assert!(!ws.dirty);
    ws.phase = AppPhase::UnlockPassword;
    ws.sync_window_resolution(801, 600, 52);
    assert!(!ws.dirty);
    assert_eq!(ws.config.window_width, Some(801));
}

fn answer(status: u16, body: &str) -> ResponseState {
    ResponseState {
        status_code: Some(status),
        status_text: "OK".to_owned(),
        duration_ms: Some(1),
        headers: vec![],
        body: body.to_owned(),
        error: None,
    }
}

fn rule(path: &str, name: &str) -> ResponseScript {
    ResponseScript {
        extract_key: path.to_owned(),
        env_var: name.to_owned(),
    }
}

#[test]
fn answers_run_the_rules_of_their_tab() {
    let mut ws = ready();
    ws.open_request_tabs[0].draft.scripts = vec![
        rule("data.token", " host "),
        rule("items.1.id", "id"),
        rule("missing", "x"),
        rule(" ", "y"),
    ];
    let request = ws.send_selected_request(60).expect("is sent");
    assert!(ws.send_selected_request(61).is_none());
    assert!(ws.is_request_in_flight(&request.tab_id));
    assert_eq!(request.endpoint.id, "ep-1");
    assert_eq!(request.env_vars.get("host"), Some(&"b".to_owned()));
    assert_eq!(ws.open_request_tabs[0].response.status_text, "Sending request...");
    assert_eq!(ws.status_line, "Sending GET https://example.com/a");

    ws.select_environment("env-2".to_owned(), 62);
    ws.dirty = false;
    let body = r#"{"data":{"token":"t"},"items":[{},{"id":7}]}"#;
    ws.receive_response(&request.tab_id, answer(200, body), 63);
    assert_eq!(ws.in_flight_tab_id, None);
    assert_eq!(ws.open_request_tabs[0].scripts_ran, 2);
    assert_eq!(
        ws.environments[0].variables,
        vec![
            KeyValue::new("host", "t"),
            KeyValue::new(" host ", "b"),
            KeyValue::new("id", "7"),
        ]
    );
    assert!(ws.environments[1].variables.is_empty());
    assert!(ws.dirty);
    assert!(ws.open_request_tabs[0].parsed_response_json.is_some());
    assert_eq!(ws.open_request_tabs[0].response_raw_chunks, vec![body.to_owned()]);
}

#[test]
fn rules_run_on_success_only() {
    let mut ws = ready();
    ws.open_request_tabs[0].draft.scripts = vec![rule("a", "host")];
    for (status, body) in [(404, r#"{"a":"x"}"#), (200, "not JSON"), (200, r#"{"b":1}"#)] {
        let request = ws.send_selected_request(1).expect("is sent");
        ws.receive_response(&request.tab_id, answer(status, body), 2);
        assert_eq!(ws.environments[0].variables[0], KeyValue::new("host", "a"));
        assert_eq!(ws.open_request_tabs[0].scripts_ran, 0);
    }
    assert!(ws.open_request_tabs[0].parsed_response_json_error.is_none());
}

#[test]
fn lost_answers_are_noted() {
    let mut ws = ready();
    ws.send_selected_request(1).expect("is sent");
    ws.lose_response();
    assert_eq!(ws.in_flight_tab_id, None);
    assert_eq!(
        ws.open_request_tabs[0].response.error.as_deref(),
        Some("Request worker disconnected.")
    );
    ws.open_request_tabs.clear();
    assert!(ws.send_selected_request(2).is_none());
    assert_eq!(ws.status_line, "Select an endpoint first.");
    ws.receive_response("tab-9", failed_response("x".to_owned()), 3);
    assert_eq!(ws.workspace_ui_last_mutation, 3);
}

#[test]
fn the_active_request_is_copied_as_a_command() {
    let mut ws = ready();
    let command = ws.copy_curl_for_selected_request().expect("is open");
    assert!(command.contains("--url 'https://example.com/a'"));
    assert_eq!(ws.status_line, "Copied cURL for GET Users");
    ws.active_request_tab_id = None;
    assert_eq!(ws.copy_curl_for_selected_request(), None);
    assert_eq!(ws.status_line, "Select an endpoint first.");
}

#[test]
fn locking_leaves_no_secrets() {
    let mut ws = ready();
    let request = ws.send_selected_request(1).expect("is sent");
    ws.receive_response(&request.tab_id, answer(200, "secret"), 2);
    ws.keep_session(NEVER);
    ws.lock_workspace();
    assert_eq!(ws.phase, AppPhase::UnlockPassword);
    assert_eq!(ws.key_material, None);
    assert!(ws.environments.is_empty());
    assert_eq!(ws.open_request_tabs[0].response, ResponseState::default());
    assert!(ws.open_request_tabs[0].response_raw_chunks.is_empty());
    assert_eq!(ws.check_session(0), SessionState::Absent);
}

#[test]
fn unlocking_fills_in_what_is_missing() {
    let mut ws = Workspace::open(core_of(vec![]), None, true, String::new(), 0);
    assert!(ws.complete_unlock([0_u8; 32], vec![], true, 7));
    assert_eq!(ws.environments.len(), 3);
    assert!(ws.dirty);
    assert_eq!(
        ws.status_line,
        "Detected legacy plaintext environment files. They will be re-encrypted."
    );
    ws.finish_first_import(0, "m".to_owned(), 8);
    assert_eq!(
        ws.status_line,
        "No Postman data found for auto-import in default folders."
    );
    assert!(ws.config.postman_preseed_done);
    ws.finish_first_import(2, "m".to_owned(), 9);
    assert_eq!(ws.status_line, "m");
    assert!(!ws.complete_unlock([0_u8; 32], vec![], false, 10));
}

#[test]
fn sessions_last_as_chosen() {
    let mut ws = ready();
    assert_eq!(ws.plan_session(1000), SessionPlan::Forget);
    ws.config.session_duration_days = Some(0);
    assert_eq!(ws.plan_session(1000), SessionPlan::Keep { expires_at: NEVER });
    ws.config.session_duration_days = Some(7);
    assert_eq!(ws.plan_session(1000), SessionPlan::Keep { expires_at: 605_800 });
    assert_eq!(ws.plan_session(u64::MAX - 1), SessionPlan::Keep { expires_at: NEVER });
    ws.keep_session(605_800);
    assert_eq!(ws.check_session(605_800), SessionState::Absent);
    ws.phase = AppPhase::UnlockPassword;
    assert_eq!(ws.check_session(605_800), SessionState::Active);
    assert_eq!(ws.check_session(605_801), SessionState::Expired);
    assert_eq!(ws.config.session_expires_at, None);
    ws.keep_session(5);
    ws.forget_session();
    assert_eq!(ws.check_session(1), SessionState::Absent);
}

#[test]
fn passwords_are_checked_when_they_are_chosen() {
    assert_eq!(
        check_master_password("short", "short"),
        Err("Password must be at least 12 characters.".to_owned())
    );
    assert_eq!(
        check_master_password("long enough!", "long enough?"),
        Err("Password confirmation does not match.".to_owned())
    );
    assert_eq!(check_master_password("long enough!", "long enough!"), Ok(()));
    assert_eq!(
        check_export_password(" 1234567 ", "1234567"),
        Err("Bundle password must be at least 8 characters.".to_owned())
    );
    assert_eq!(
        check_export_password("12345678", "1234567"),
        Err("Bundle password confirmation does not match.".to_owned())
    );
    assert_eq!(check_export_password(" éééé ", "éééé"), Ok("éééé".to_owned()));

    let mut auth = AuthState::new();
    assert!(!auth.submit_setup("short", "short"));
    assert_eq!(auth.message, "Password must be at least 12 characters.");
    assert!(auth.submit_setup("long enough!", "long enough!"));
    assert!(auth.pending);
    assert!(!auth.submit_setup("long enough!", "long enough!"));
    assert!(!auth.submit_unlock(true));
    auth.settle(Some("no".to_owned()));
    assert_eq!((auth.pending, auth.message.as_str()), (false, "no"));
    assert!(!auth.submit_unlock(false));
    assert_eq!(auth.message, "Missing security metadata; restart app.");
    assert!(auth.submit_unlock(true));
    auth.settle(None);
    assert_eq!((auth.pending, auth.message.as_str()), (false, ""));
}

#[test]
fn requests_are_listed_by_collection_and_folder() {
    let mut ws = ready();
    ws.saved_endpoints[1].folder_path = " Deep ".to_owned();
    ws.add_endpoint(1);
    ws.open_request_tabs[0].draft.name = "aaa".to_owned();
    ws.open_request_tabs[0].is_dirty = true;
    let items = ws.sidebar_request_items();
    let shown: Vec<(&str, &str, &str)> = items
        .iter()
        .map(|i| (i.collection.as_str(), i.folder_path.as_str(), i.name.as_str()))
        .collect();
    assert_eq!(
        shown,
        vec![
            ("Auth", "", "Login"),
            ("Core", "", "aaa"),
            ("Core", "Deep", "Orders"),
            ("General", "", "New Request"),
        ]
    );
    assert!(items[1].is_dirty);
    assert_eq!(items[1].saved_endpoint_id.as_deref(), Some("ep-1"));
    assert_eq!(items[3].saved_endpoint_id, None);
    let groups = group_items(&items);
    let names: Vec<&str> = groups.iter().map(|g| g.collection.as_str()).collect();
    assert_eq!(names, vec!["Auth", "Core", "General"]);
    assert_eq!(groups[1].folders.len(), 2);
    assert_eq!(groups[1].folders[1].folder_path, "Deep");
    assert_eq!(groups[1].folders[1].items[0].name, "Orders");
}

#[test]
fn responses_are_read_when_a_tab_is_opened() {
    let mut kept = persisted("t", None, true, endpoint("e", "c", "n"));
    kept.response = answer(200, " {\"a\": 1} ");
    let tab = RequestTab::from_persisted(kept);
    assert!(tab.parsed_response_json.is_some());
    assert_eq!(tab.parsed_response_json_error, None);
    let mut kept = persisted("t", None, true, endpoint("e", "c", "n"));
    kept.response = answer(200, "{");
    let tab = RequestTab::from_persisted(kept);
    assert!(tab.parsed_response_json.is_none());
    assert_eq!(
        tab.parsed_response_json_error.as_deref(),
        Some("EOF while parsing an object at line 1 column 1")
    );
}

#[test]
fn selection_is_unfolded_once() {
    let mut ws = ready();
    assert_eq!(
        ws.unfold_selection(),
        Some(("Core".to_owned(), String::new()))
    );
    assert_eq!(ws.unfold_selection(), None);
    ws.open_saved_request_in_tab("ep-3", 9);
    assert_eq!(
        ws.unfold_selection(),
        Some(("Auth".to_owned(), String::new()))
    );
    assert_eq!(ws.selected_environment_name(), "dev");
    ws.selected_environment_id = Some("env-9".to_owned());
    assert_eq!(ws.selected_environment_name(), "None");
}
