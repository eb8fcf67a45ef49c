use mailman::import::ImportSummary;
use mailman::models::{
    Endpoint, Environment, KeyValue, SharedEnvironment, SharedWorkspacePayload,
};
use mailman::postman_cache::ImportScanResult;
use mailman::postman_export::ImportedEnvironment;
use mailman::storage::load_core_data;
use mailman::workspace::{AppPhase, Workspace};

fn endpoint(id: &str, source: &str, name: &str, url: &str) -> Endpoint {
    let mut endpoint = Endpoint::with_defaults(id.to_owned(), name, "GET", url);
    endpoint.collection = "Shop".to_owned();
    endpoint.source_request_id = source.to_owned();
    endpoint
}

fn workspace(endpoints: Vec<Endpoint>) -> Workspace {
    let core = load_core_data(endpoints, None, None, None);
    let mut ws = Workspace::open(core, None, true, String::new(), 0);
    let environments = vec![Environment {
        id: "env-1".to_owned(),
        name: "Dev".to_owned(),
        file_name: "env-1.json".to_owned(),
        variables: vec![KeyValue::new("Host", "a")],
    }];
    ws.complete_unlock([0_u8; 32], environments, false, 0);
    ws.phase = AppPhase::Ready;
    ws.dirty = false;
    ws
}

fn scan(endpoints: Vec<Endpoint>, environments: Vec<ImportedEnvironment>) -> ImportScanResult {
    let mut scan = ImportScanResult::default();
    scan.files_scanned = 4;
    scan.endpoints = endpoints;
    scan.environments = environments;
    scan
}

#[test]
fn imports_are_put_into_words() {
    let summary = ImportSummary {
        directories_scanned: 1,
        files_scanned: 2,
        endpoints_added: 3,
        endpoints_updated: 4,
        environments_added: 5,
        environment_variables_merged: 6,
    };
    assert_eq!(
        summary.to_message(),
        "Postman import: scanned 1 dirs / 2 files, added 3 endpoints, updated 4 existing \
         endpoints, added 5 environments, merged 6 environment vars."
    );
    let twice = summary.plus(&summary).expect("fits");
    assert_eq!(twice.directories_scanned, 1);
    assert_eq!(twice.files_scanned, 4);
    assert_eq!(twice.environment_variables_merged, 12);
    let most = ImportSummary { files_scanned: usize::MAX, ..summary };
    assert_eq!(most.plus(&summary), None);
    assert!(!summary.needs_unfiltered_scan(true));
    assert!(ImportSummary::default().needs_unfiltered_scan(true));
    assert!(!ImportSummary::default().needs_unfiltered_scan(false));
}

#[test]
fn known_requests_are_merged_and_others_added() {
    let mut ws = workspace(vec![endpoint("ep-1", "r1", "One", "https://x/1")]);
    let mut same = endpoint("ep-8", " R1 ", "Other name", "https://x/1");
    same.headers.push(KeyValue::new("A", "b"));
    same.body = "filled".to_owned();
    let other = endpoint("ep-9", "r2", "Two", "https://x/2?q=1");
    let summary = ws.merge_postman_import(scan(vec![same, other], vec![]), 9);
    assert_eq!(summary.endpoints_added, 1);
    assert_eq!(summary.endpoints_updated, 1);
    assert_eq!(summary.files_scanned, 4);
    assert_eq!(ws.saved_endpoints.len(), 2);
    assert_eq!(ws.saved_endpoints[0].id, "ep-1");
    assert_eq!(ws.saved_endpoints[0].name, "One");
    assert_eq!(ws.saved_endpoints[0].headers, vec![KeyValue::new("A", "b")]);
    assert_eq!(ws.saved_endpoints[0].body, "filled");
    assert_eq!(ws.saved_endpoints[1].url, "https://x/2");
    assert!(ws.dirty);
    assert_eq!(ws.workspace_ui_last_mutation, 9);
    assert_eq!(ws.open_request_tabs[0].draft.body, "filled");

    let again = endpoint("ep-9", "r2", "Two", "https://x/2?q=1");
    let summary = ws.merge_postman_import(scan(vec![again], vec![]), 10);
    assert!(!summary.changed_anything());
    assert_eq!(ws.saved_endpoints.len(), 2);
}

#[test]
fn collections_and_folders_are_looked_up() {
    let mut ws = workspace(vec![endpoint("ep-1", "r1", "One", "https://x/1")]);
    let mut found = endpoint("ep-9", "r2", "Two", "https://x/2");
    found.collection = "General".to_owned();
    found.source_collection_id = " c1 ".to_owned();
    found.source_folder_id = "f1".to_owned();
    let mut scan = scan(vec![found], vec![]);
    scan.collection_names_by_id.insert("c1".to_owned(), "Looked up".to_owned());
    scan.folders_by_id.insert(
        "f1".to_owned(),
        mailman::folders::ImportedFolderMeta {
            name: "Inner".to_owned(),
            parent_folder_id: Some("f0".to_owned()),
        },
    );
    scan.folders_by_id.insert(
        "f0".to_owned(),
        mailman::folders::ImportedFolderMeta {
            name: "Outer".to_owned(),
            parent_folder_id: None,
        },
    );
    ws.merge_postman_import(scan, 1);
    assert_eq!(ws.saved_endpoints[1].collection, "Looked up");
    assert_eq!(ws.saved_endpoints[1].folder_path, "Outer / Inner");
}

#[test]
fn variables_are_never_overwritten() {
    let mut ws = workspace(vec![endpoint("ep-1", "r1", "One", "https://x/1")]);
    let imported = |name: &str, pairs: Vec<KeyValue>| ImportedEnvironment {
        name: name.to_owned(),
        variables: pairs,
    };
    let summary = ws.merge_postman_import(
        scan(
            vec![],
            vec![
                imported(
                    " DEV ",
                    vec![
                        KeyValue::new("hOST", "b"),
                        KeyValue::new(" New ", "1"),
                        KeyValue::new("new", "2"),
                        KeyValue::new(" ", "3"),
                    ],
                ),
                imported("QA", vec![KeyValue::new("k", "v")]),
                imported("  ", vec![KeyValue::new("k", "v")]),
            ],
        ),
        2,
    );
    assert_eq!(summary.environment_variables_merged, 1);
    assert_eq!(summary.environments_added, 1);
    assert_eq!(
        ws.environments[0].variables,
        vec![KeyValue::new("Host", "a"), KeyValue::new(" New ", "1")]
    );
    assert_eq!(ws.environments.len(), 2);
    assert_eq!(ws.environments[1].name, "QA");
    assert!(ws.environments[1].id.starts_with("env-"));
    assert!(ws.dirty);
    assert_ne!(ws.workspace_ui_last_mutation, 2);
}

#[test]
fn shared_workspaces_are_taken_in() {
    let mut first = endpoint("ep-1", "", "One", "https://x/1");
    first.body_mode = "raw".to_owned();
    let ws = workspace(vec![first]);
    let payload = ws.export_workspace_payload();
    assert_eq!(payload.version, 1);
    assert_eq!(payload.environments[0].name, "Dev");

    let mut other = workspace(vec![endpoint("ep-1", "", "Own", "https://own")]);
    other.environments.clear();
    let summary = other.import_workspace_payload(payload, 5).expect("holds something");
    assert_eq!(summary.endpoints_added, 1);
    assert_eq!(summary.environments_added, 1);
    assert_eq!(other.saved_endpoints[1].name, "One");
    assert_ne!(other.saved_endpoints[1].id, "ep-1");
    assert!(other.saved_endpoints[1].id.starts_with("ep-"));
    assert_eq!(other.saved_endpoints[1].body_mode, "none");
    assert_eq!(other.environments[0].name, "Dev");
    assert_eq!(other.environments[0].variables, vec![KeyValue::new("Host", "a")]);

    let empty = SharedWorkspacePayload {
        version: 1,
        endpoints: vec![],
        environments: vec![],
    };
    assert_eq!(
        other.import_workspace_payload(empty, 6).err().as_deref(),
        Some("Bundle contains no endpoints or environments.")
    );
    let named = SharedWorkspacePayload {
        version: 1,
        endpoints: vec![endpoint("ep-7", "", "Seven", "https://x/7")],
        environments: vec![SharedEnvironment {
            name: "dev".to_owned(),
            variables: vec![],
        }],
    };
    other.import_workspace_payload(named, 7).expect("holds something");
    assert_eq!(other.saved_endpoints[2].id, "ep-7");
    assert_eq!(other.environments.len(), 1);
}

#[test]
fn a_workspace_is_carried_to_another() {
    let mut second = endpoint("ep-2", "r2", "Two", "https://x/2");
    second.headers.push(KeyValue::new("A", "b"));
    second.query_params.push(KeyValue::new("q", "1"));
    second.folder_path = "a / b".to_owned();
    second.body = "text".to_owned();
    second.body_mode = "raw".to_owned();
    let source = workspace(vec![endpoint("ep-1", "", "One", "https://x/1"), second]);

    let mut target = workspace(vec![]);
    target.saved_endpoints.clear();
    target.environments.clear();
    let summary = target
        .import_workspace_payload(source.export_workspace_payload(), 5)
        .expect("holds something");
    assert_eq!(summary.endpoints_added, 2);
    assert_eq!(summary.environments_added, source.environments.len());
    assert_eq!(target.saved_endpoints, source.saved_endpoints);
    assert_eq!(target.environments.len(), source.environments.len());
    for (found, shared) in target.environments.iter().zip(&source.environments) {
        assert_eq!(found.name, shared.name);
        assert_eq!(found.variables, shared.variables);
    }

    let mut source = source;
    source.saved_endpoints[0].id = " ".to_owned();
    let mut target = workspace(vec![endpoint("ep-9", "", "Own", "https://own")]);
    target
        .import_workspace_payload(source.export_workspace_payload(), 5)
        .expect("holds something");
    assert_eq!(target.saved_endpoints[0].id, "ep-9");
    assert!(target.saved_endpoints[1].id.starts_with("ep-"));
    assert_eq!(target.saved_endpoints[1].name, "One");
    assert_eq!(target.saved_endpoints[2], source.saved_endpoints[1]);
}

fn overlapping_scan() -> ImportScanResult {
    let mut first = endpoint("ep-8", "r1", "One", "https://x/1");
    first.headers.push(KeyValue::new("A", "b"));
    let mut second = endpoint("ep-9", "R1", "One again", "https://x/1");
    second.body = "filled".to_owned();
    second.body_mode = "urlencoded".to_owned();
    second.headers.push(KeyValue::new("a", "c"));
    second.headers.push(KeyValue::new("D", "e"));
    let third = endpoint("ep-7", "", "Plain", "https://x/3?q=1");
    let variables = vec![
        KeyValue::new("host", "b"),
        KeyValue::new("token", "t"),
        KeyValue::new("Token", "u"),
    ];
    let environments = vec![
        ImportedEnvironment { name: " dev ".to_owned(), variables },
        ImportedEnvironment {
            name: "New".to_owned(),
            variables: vec![KeyValue::new("k", "v")],
        },
    ];
    scan(vec![first, second, third], environments)
}

#[test]
fn second_import_changes_nothing() {
    let mut ws = workspace(vec![endpoint("ep-1", "r1", "One", "https://x/1")]);
    let first = ws.merge_postman_import(overlapping_scan(), 9);
    assert_eq!(first.endpoints_added, 1);
    assert_eq!(first.endpoints_updated, 2);
    assert_eq!(first.environments_added, 1);
    assert_eq!(first.environment_variables_merged, 1);
    assert_eq!(
        ws.saved_endpoints[0].headers,
        vec![KeyValue::new("A", "b"), KeyValue::new("D", "e")]
    );
    ws.dirty = false;
    let ids: Vec<String> = ws.saved_endpoints.iter().map(|each| each.id.clone()).collect();
    let second = ws.merge_postman_import(overlapping_scan(), 10);
    assert!(!second.changed_anything());
    assert!(!ws.dirty);
    let kept: Vec<String> = ws.saved_endpoints.iter().map(|each| each.id.clone()).collect();
    assert_eq!(ids, kept);
    assert_eq!(ws.environments.len(), 2);
    assert_eq!(ws.environments[0].variables.len(), 2);
}

#[test]
fn padded_variable_names_are_merged_again() {
    let padded = || {
        let variables = vec![KeyValue::new(" token ", "t")];
        scan(vec![], vec![ImportedEnvironment { name: "Dev".to_owned(), variables }])
    };
    let mut ws = workspace(vec![]);
    assert_eq!(ws.merge_postman_import(padded(), 1).environment_variables_merged, 1);
    assert_eq!(ws.merge_postman_import(padded(), 2).environment_variables_merged, 1);
}
