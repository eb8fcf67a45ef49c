use mailman::defaults::{
    default_endpoints, default_environment_index, default_environments,
    default_variables_for_environment_name, environment_index, id_from_time,
};
use mailman::folders::{
    endpoint_storage_location, normalize_folder_path, safe_path_segment, slugify_workspace_name,
    split_folder_path, workspace_id_from_model_path,
};
use mailman::merge::{endpoint_dedup_key, merge_endpoint_details, merge_header_pairs};
use mailman::models::{AppConfig, Endpoint, Environment, EnvironmentIndexEntry, KeyValue};
use mailman::security::encrypt_with_nonce;
use mailman::storage::{
    decrypted_variables, encrypt_environment, load_config, load_core_data, load_endpoints_tree,
    load_environments, read_environment, EnvironmentContent, StoredVariables,
};

fn endpoint(collection: &str, folder: &str, name: &str) -> Endpoint {
    let mut endpoint = Endpoint::with_defaults(name.to_owned(), name, "GET", "https://x?a=1");
    endpoint.collection = collection.to_owned();
    endpoint.folder_path = folder.to_owned();
    endpoint
}

fn entry(name: &str) -> EnvironmentIndexEntry {
    EnvironmentIndexEntry {
        id: format!("id-{name}"),
        name: name.to_owned(),
        file_name: format!("{name}.json"),
    }
}

#[test]
fn endpoint_files_are_listed_in_order() {
    let mut raw = endpoint("a", "", "z");
    raw.body_mode = "TEXT".to_owned();
    let read = vec![
        endpoint("b", "x", "1"),
        endpoint("B", "", "2"),
        raw,
        endpoint("A", "", "Z"),
        endpoint("a", "", "Y"),
    ];
    let names: Vec<String> = load_endpoints_tree(read).into_iter().map(|e| e.name).collect();
    assert_eq!(names, vec!["Y", "z", "Z", "2", "1"]);

    let mut raw = endpoint("a", "", "z");
    raw.body_mode = "raw".to_owned();
    assert_eq!(load_endpoints_tree(vec![raw.clone()])[0].body_mode, "none");
    raw.body = "x".to_owned();
    assert_eq!(load_endpoints_tree(vec![raw])[0].body_mode, "raw");
}

#[test]
fn core_data_fall_back_to_the_first_ones() {
    let core = load_core_data(vec![], None, None, None);
    assert_eq!(core.endpoints.len(), default_endpoints().len());
    assert_eq!(core.config.selected_endpoint_id.as_ref(), Some(&core.endpoints[0].id));
    assert_eq!(core.environment_index.len(), default_environment_index().len());
    assert_eq!(
        core.config.selected_environment_id.as_ref(),
        Some(&core.environment_index[0].id)
    );

    let legacy = vec![endpoint(" ", "/a//b/", "old")];
    let mut config = AppConfig::default();
    config.selected_endpoint_id = Some("chosen".to_owned());
    let core = load_core_data(vec![], Some(legacy), Some(config), Some(vec![entry("e")]));
    assert_eq!(core.endpoints.len(), 1);
    assert_eq!(core.endpoints[0].collection, "General");
    assert_eq!(core.endpoints[0].folder_path, "a / b");
    assert_eq!(core.endpoints[0].url, "https://x");
    assert_eq!(core.endpoints[0].query_params, vec![KeyValue::new("a", "1")]);
    assert_eq!(core.config.selected_endpoint_id.as_deref(), Some("chosen"));
    assert_eq!(core.config.selected_environment_id.as_deref(), Some("id-e"));
    assert_eq!(load_config(None).session_duration_days, None);
}

#[test]
fn environments_are_put_together() {
    let entries = vec![entry("local"), entry("own"), entry("plain")];
    let stored = vec![
        StoredVariables::Missing,
        StoredVariables::Encrypted(vec![KeyValue::new("a", "1")]),
        StoredVariables::Legacy(vec![KeyValue::new("b", "2")]),
    ];
    let (environments, legacy) = load_environments(&entries, &stored);
    assert!(legacy);
    assert_eq!(environments[0].variables, default_variables_for_environment_name("local"));
    assert_eq!(environments[1].variables, vec![KeyValue::new("a", "1")]);
    assert_eq!(environments[2].file_name, "plain.json");
    let (first, legacy) = load_environments(&vec![], &vec![]);
    assert!(!legacy);
    assert_eq!(first.len(), default_environments().len());
}

#[test]
fn environment_files_are_encrypted_or_legacy() {
    let key = [8_u8; 32];
    let blob = encrypt_with_nonce(&key, &[1_u8; 24], b"{}").expect("can be encrypted");
    match read_environment(&key, Some(blob), None, "/p") {
        Ok(EnvironmentContent::Decrypted(content)) => assert_eq!(content, b"{}"),
        _ => panic!("can be read"),
    }
    let blob = encrypt_with_nonce(&key, &[1_u8; 24], b"{}").expect("can be encrypted");
    match read_environment(&[9_u8; 32], Some(blob), None, "/p") {
        Err(message) => {
            assert_eq!(message, "failed to decrypt /p: decryption failed: aead::Error")
        }
        _ => panic!("is not readable"),
    }
    match read_environment(&key, None, Some(vec![KeyValue::new("a", "1")]), "/p") {
        Ok(EnvironmentContent::Legacy(variables)) => assert_eq!(variables.len(), 1),
        _ => panic!("can be read"),
    }
    match read_environment(&key, None, None, "/p") {
        Err(message) => assert_eq!(
            message,
            "environment file /p is neither encrypted nor valid legacy JSON"
        ),
        _ => panic!("is not readable"),
    }
}

fn written(variables: &[KeyValue]) -> Vec<u8> {
    let lines: Vec<String> =
        variables.iter().map(|pair| format!("{}={}", pair.key, pair.value)).collect();
    lines.join("\n").into_bytes()
}

fn parsed(bytes: &[u8]) -> Result<Vec<KeyValue>, String> {
    let text = std::str::from_utf8(bytes).map_err(|err| err.to_string())?;
    text.lines()
        .map(|line| match line.split_once('=') {
            Some((key, value)) => Ok(KeyValue::new(key, value)),
            None => Err("no value".to_owned()),
        })
        .collect()
}

#[test]
fn saved_environments_are_loaded() {
    let key = [8_u8; 32];
    let saved = vec![
        Environment {
            id: "1".to_owned(),
            name: "local".to_owned(),
            file_name: "a.json".to_owned(),
            variables: vec![KeyValue::new("host", "localhost"), KeyValue::new("é", "日=本")],
        },
        Environment {
            id: "2".to_owned(),
            name: "empty".to_owned(),
            file_name: "b.json".to_owned(),
            variables: vec![],
        },
    ];
    let index = environment_index(&saved);
    let mut stored = vec![];
    for environment in &saved {
        let serialized = written(&environment.variables);
        let blob = encrypt_environment(&key, environment, &serialized).expect("can be encrypted");
        assert_ne!(blob.ciphertext_b64.as_bytes(), &serialized[..]);
        match read_environment(&key, Some(blob), None, &environment.file_name) {
            Ok(EnvironmentContent::Decrypted(content)) => stored.push(
                decrypted_variables(parsed(&content), &environment.file_name).expect("is parsed"),
            ),
            _ => panic!("can be read"),
        }
    }
    let (loaded, legacy) = load_environments(&index, &stored);
    assert!(!legacy);
    assert_eq!(loaded.len(), saved.len());
    for (mine, theirs) in loaded.iter().zip(&saved) {
        assert_eq!(mine.id, theirs.id);
        assert_eq!(mine.name, theirs.name);
        assert_eq!(mine.file_name, theirs.file_name);
        assert_eq!(mine.variables, theirs.variables);
    }
    match decrypted_variables(parsed(b"x"), "/p") {
        Err(message) => assert_eq!(message, "invalid decrypted env payload in /p: no value"),
        _ => panic!("is not readable"),
    }
}

#[test]
fn folders_have_normal_paths() {
    assert_eq!(split_folder_path(" a / b//c \\ d"), vec!["a", "b", "c", "d"]);
    assert_eq!(normalize_folder_path("a/b"), "a / b");
    assert_eq!(normalize_folder_path(&normalize_folder_path("/a /b/")), "a / b");
    assert_eq!(safe_path_segment("a b/c?"), "a_b_c");
    assert_eq!(safe_path_segment("??"), "untitled");
    assert_eq!(slugify_workspace_name("My Team's  Space"), "my-team-s-space");
    assert_eq!(
        workspace_id_from_model_path("collection/1/workspace-2").as_deref(),
        Some("workspace-2")
    );
    assert_eq!(workspace_id_from_model_path("collection/1"), None);
    let (directories, file) = endpoint_storage_location(&endpoint("My API", "a / b c", "id 1"));
    assert_eq!(directories, vec!["My_API", "a", "b_c"]);
    assert_eq!(file, "GET__id_1.json");
}

#[test]
fn requests_with_the_same_source_are_the_same() {
    let mut one = endpoint("a", "", "One");
    let mut two = endpoint("b", "x", "Two");
    assert_ne!(endpoint_dedup_key(&one), endpoint_dedup_key(&two));
    one.source_request_id = " ABC ".to_owned();
    two.source_request_id = "abc".to_owned();
    assert_eq!(endpoint_dedup_key(&one), endpoint_dedup_key(&two));
    assert_eq!(endpoint_dedup_key(&one), "source-id|abc");
}

#[test]
fn case_and_space_do_not_tell_requests_apart() {
    let mut one = endpoint("\u{39f}\u{3a3}A", " Mine / Yours", "Stra\u{df}e");
    one.method = " get ".to_owned();
    let mut two = endpoint("\u{39f}\u{3a3}a", "mine / yours ", "stra\u{df}E");
    two.method = "Get".to_owned();
    two.url = " HTTPS://X?A=1".to_owned();
    two.body = "other".to_owned();
    assert_eq!(endpoint_dedup_key(&one), endpoint_dedup_key(&two));
    assert_eq!(
        endpoint_dedup_key(&one),
        "GET|https://x?a=1|\u{3bf}\u{3c3}a|mine / yours|stra\u{df}e|"
    );
    two.method = "\u{df}".to_owned();
    assert!(endpoint_dedup_key(&two).starts_with("SS|"));
    two.method = "source-id".to_owned();
    assert!(endpoint_dedup_key(&two).starts_with("SOURCE-ID|"));
    two.source_request_id = "get".to_owned();
    assert_ne!(endpoint_dedup_key(&one), endpoint_dedup_key(&two));
}

#[test]
fn slugs_stay_as_they_are() {
    for name in ["My Team's  Space", "--a__b--", "\u{c9}t\u{e9} 42", "", "?!"] {
        let slug = slugify_workspace_name(name);
        assert_eq!(slugify_workspace_name(&slug), slug);
        assert!(!slug.starts_with('-') && !slug.ends_with('-') && !slug.contains("--"));
    }
    assert_eq!(slugify_workspace_name("--a__B--"), "a-b");
}

#[test]
fn merging_fills_gaps_only() {
    let mut known = endpoint("General", "", "One");
    known.headers.push(KeyValue::new("Accept", "a"));
    known.body = "kept".to_owned();
    let mut found = endpoint("Real", "F", "Other");
    found.headers.push(KeyValue::new("ACCEPT", "b"));
    found.headers.push(KeyValue::new("X", "c"));
    found.body = "other".to_owned();
    assert!(merge_endpoint_details(&mut known, found.clone()));
    assert_eq!(known.name, "One");
    assert_eq!(known.collection, "Real");
    assert_eq!(known.folder_path, "F");
    assert_eq!(known.body, "kept");
    assert_eq!(
        known.headers,
        vec![KeyValue::new("Accept", "a"), KeyValue::new("X", "c")]
    );
    assert!(!merge_endpoint_details(&mut known, found));

    let mut headers = vec![KeyValue::new("a", "1")];
    merge_header_pairs(&mut headers, vec![KeyValue::new("A", "2"), KeyValue::new("b", "3")]);
    assert_eq!(headers, vec![KeyValue::new("a", "1"), KeyValue::new("b", "3")]);
}

#[test]
fn ids_are_made_of_the_time() {
    assert_eq!(id_from_time("ep", 12, 345), "ep-12-345");
}

#[test]
fn requests_are_written_to_files_of_their_own() {
    let one = endpoint_storage_location(&endpoint("Shop", "", "ep-1"));
    let two = endpoint_storage_location(&endpoint("Shop", "", "ep-2"));
    assert_eq!(one.0, two.0);
    assert_ne!(one.1, two.1);
    let same = endpoint_storage_location(&endpoint("Shop", "", "ep_1"));
    let padded = endpoint_storage_location(&endpoint("Shop", "", "ep 1"));
    assert_eq!(same.1, padded.1);
}
