use std::io::Write;

use mailman::bytes::{
    decode_first_gzip_payload, find_balanced_braces_end_ignoring_strings, find_balanced_json_end,
    find_bytes, payload_looks_like_postman_model,
};
use mailman::discovery::{
    build_workspace_import_context, collect_collection_ids_for_workspaces, collect_workspace_ids,
    is_copied_with_store, is_json_file, is_leveldb_data_file, is_leveldb_directory,
    is_postman_cache_data_file, is_requester_log, newest_leveldb_file_time,
    resolve_leveldb_directories_for_import, resolve_postman_context_root,
    resolve_postman_scan_root, scan_postman_directory, scan_postman_requester_log,
    select_latest_leveldb_directory, ScanRoot, StoreChoice, StoreDirectory,
};
use mailman::postman_cache::{ImportScanResult, WorkspaceImportContext};
use mailman::scan::{
    decode_escaped_json_string, extract_import_entities_from_leveldb_binary,
    merge_import_scan_result, parse_json_like_payload, scan_postman_cached_payload,
    scan_postman_leveldb_entry,
};
use mailman::table::TextSet;

#[test]
fn leveldb_binary_extraction_imports_request_model() {
    let payload = concat_payload();
    let mut raw = b"binary-prefix".to_vec();
    raw.extend_from_slice(payload.as_bytes());
    raw.extend_from_slice(b"binary-suffix");

    let mut result = ImportScanResult::default();
    extract_import_entities_from_leveldb_binary(
        &raw,
        &WorkspaceImportContext::default(),
        &mut result,
    );

    assert_eq!(result.endpoints.len(), 1);
    let endpoint = &result.endpoints[0];
    assert_eq!(endpoint.collection, "Auth0");
    assert_eq!(endpoint.method, "POST");
    assert_eq!(endpoint.url, "https://inspace.au.auth0.com/oauth/token");
    assert_eq!(endpoint.headers.len(), 1);
}

fn concat_payload() -> String {
    let data = [
        r#""name":"Auth0 Token""#,
        r#""method":"POST""#,
        r#""url":"https://inspace.au.auth0.com/oauth/token""#,
        r#""collection":{"name":"Auth0","id":"col-1"}"#,
        r#""headerData":[{"key":"Content-Type","value":"application/json"}]"#,
    ]
    .join(",");
    format!(r#"{{"meta":{{"model":"request"}},"data":{{{data}}}}}"#)
}

#[test]
fn leveldb_binary_extraction_decodes_escaped_json_object() {
    let escaped_payload = r#"{\"meta\":{\"model\":\"request\"},\"data\":{\"name\":\"Escaped\",\"method\":\"GET\",\"url\":\"https://example.com\"}}"#;
    let mut raw = b"prefix".to_vec();
    raw.extend_from_slice(escaped_payload.as_bytes());
    raw.extend_from_slice(b"suffix");

    let mut result = ImportScanResult::default();
    extract_import_entities_from_leveldb_binary(
        &raw,
        &WorkspaceImportContext::default(),
        &mut result,
    );

    assert_eq!(result.endpoints.len(), 1);
    assert_eq!(result.endpoints[0].name, "Escaped");
}

#[test]
fn compressed_payloads_are_read() {
    let mut encoder = flate2::write::GzEncoder::new(Vec::new(), flate2::Compression::default());
    encoder.write_all(concat_payload().as_bytes()).expect("can be written");
    let mut raw = b"header".to_vec();
    raw.extend(encoder.finish().expect("can be compressed"));
    assert_eq!(decode_first_gzip_payload(&raw).as_deref(), Some(concat_payload().as_str()));
    assert_eq!(decode_first_gzip_payload(b"\x1f\x8b nothing"), None);

    let mut result = ImportScanResult::default();
    extract_import_entities_from_leveldb_binary(
        &raw,
        &WorkspaceImportContext::default(),
        &mut result,
    );
    assert_eq!(result.endpoints.len(), 1);
}

#[test]
fn bytes_are_searched_from_a_place() {
    assert_eq!(find_bytes(b"abcabc", b"bc", 0), Some(1));
    assert_eq!(find_bytes(b"abcabc", b"bc", 2), Some(4));
    assert_eq!(find_bytes(b"abcabc", b"bd", 0), None);
}

#[test]
fn balanced_values_end_with_their_brace() {
    assert_eq!(find_balanced_json_end(br#"x{"a":"}"}y"#, 1, 100), Some(10));
    assert_eq!(find_balanced_json_end(br#"{"a":"#, 0, 100), None);
    assert_eq!(find_balanced_braces_end_ignoring_strings(b"{{}}}", 0, 100), Some(4));
}

#[test]
fn models_are_told_by_their_fields() {
    assert!(payload_looks_like_postman_model(concat_payload().as_bytes()));
    assert!(!payload_looks_like_postman_model(b"{\"a\":1}"));
}

#[test]
fn escaped_payloads_are_decoded() {
    assert_eq!(decode_escaped_json_string("a\\n\\u00e9").as_deref(), Some("a\né"));
    assert_eq!(decode_escaped_json_string("\\x"), None);
    assert!(parse_json_like_payload(br#"{\"a\":1}"#).is_some());
    assert!(parse_json_like_payload(b"nothing").is_none());
}

#[test]
fn store_entries_are_scanned() {
    let mut result = ImportScanResult::default();
    scan_postman_leveldb_entry(
        b"key",
        concat_payload().as_bytes(),
        &WorkspaceImportContext::default(),
        &mut result,
    );
    assert_eq!(result.endpoints.len(), 1);
}

#[test]
fn scans_are_merged() {
    let mut one = ImportScanResult::default();
    one.files_scanned = 2;
    one.collection_names_by_id.insert("a".to_owned(), "old".to_owned());
    let mut two = ImportScanResult::default();
    two.files_scanned = 3;
    two.collection_names_by_id.insert("a".to_owned(), "new".to_owned());
    merge_import_scan_result(&mut one, two);
    assert_eq!(one.files_scanned, 5);
    assert_eq!(one.collection_names_by_id.get("a"), Some(&"new".to_owned()));

    let mut logs = ImportScanResult::default();
    logs.files_scanned = 1;
    let all = scan_postman_directory(
        one,
        ImportScanResult::default(),
        ImportScanResult::default(),
        logs,
    )
    .expect("can be counted");
    assert_eq!(all.files_scanned, 6);
    let mut too_many = ImportScanResult::default();
    too_many.files_scanned = usize::MAX;
    assert!(scan_postman_directory(
        all,
        too_many,
        ImportScanResult::default(),
        ImportScanResult::default()
    )
    .is_none());
}

#[test]
fn cached_payloads_are_counted_and_scanned() {
    let mut result = ImportScanResult::default();
    let payload = concat_payload();
    let mut encoder = flate2::write::GzEncoder::new(Vec::new(), flate2::Compression::default());
    let padded = format!("{payload}{}", " ".repeat(2000));
    encoder.write_all(padded.as_bytes()).expect("can be written");
    let raw = encoder.finish().expect("can be compressed");
    scan_postman_cached_payload(&raw, &WorkspaceImportContext::default(), &mut result);
    assert_eq!(result.files_scanned, 1);
    assert_eq!(result.endpoints.len(), 1);
}

#[test]
fn workspaces_are_found_by_name() {
    let id = "0a1b2c3d-0000-1111-2222-333344445555";
    let file = format!("x workspace/my-team~{id} y").into_bytes();
    let all = collect_workspace_ids(&vec![file.clone()], Some("My Team"));
    assert!(all.contains(id));
    let none = collect_workspace_ids(&vec![file], Some("Other"));
    assert!(none.is_empty());
}

#[test]
fn collections_belong_to_workspaces() {
    let id = "0a1b2c3d-0000-1111-2222-333344445555";
    let mut workspaces = TextSet::new();
    workspaces.insert(id.to_owned());
    let file = format!("collection/12345678-abcd/{id}").into_bytes();
    let found = collect_collection_ids_for_workspaces(&vec![file], &workspaces);
    assert!(found.contains("12345678-abcd"));
    let context = build_workspace_import_context(workspaces, found);
    assert!(context.workspace_ids.contains(id));
}

#[test]
fn requester_logs_are_scanned() {
    let mut result = ImportScanResult::default();
    scan_postman_requester_log(b"nothing to see", &WorkspaceImportContext::default(), &mut result);
    assert_eq!(result.files_scanned, 1);
    assert_eq!(result.endpoints.len(), 0);
}

#[test]
fn files_are_told_by_their_names() {
    assert!(is_leveldb_directory(Some("https_x_0.indexeddb.LevelDB")));
    assert!(!is_leveldb_directory(Some("leveldb2")));
    assert!(!is_leveldb_directory(None));
    assert!(is_leveldb_data_file(Some("LDB")));
    assert!(is_leveldb_data_file(Some("log")));
    assert!(!is_leveldb_data_file(Some("txt")));
    assert!(is_json_file(Some("JSON")));
    assert!(!is_json_file(None));
    assert!(is_postman_cache_data_file("/p/Cache/Cache_Data/f_1"));
    assert!(is_requester_log("renderer-requester.1.log"));
    assert!(!is_requester_log("requester.log"));
    assert!(is_copied_with_store("MANIFEST-000001", None));
    assert!(is_copied_with_store("current", None));
    assert!(!is_copied_with_store("other", None));
}

#[test]
fn the_best_store_is_chosen() {
    let store = |path: &str, newest: Option<u128>| StoreDirectory {
        path: path.to_owned(),
        newest,
    };
    let stores = vec![
        store("/p/Local Storage/leveldb", Some(9)),
        store("/p/https_desktop.postman.com_0.indexeddb.leveldb", Some(1)),
        store("/p/other.indexeddb.leveldb", Some(8)),
        store("/p/https_desktop.postman.com_0.indexeddb.leveldb2", None),
    ];
    assert_eq!(select_latest_leveldb_directory(&stores), Some(1));
    assert_eq!(select_latest_leveldb_directory(&vec![store("/a", None)]), None);
    assert_eq!(newest_leveldb_file_time(&vec![3, 7, 5]), Some(7));
    assert_eq!(newest_leveldb_file_time(&vec![]), None);
}

#[test]
fn roots_are_resolved() {
    assert_eq!(
        resolve_postman_scan_root(true, Some("000.ldb"), Some("ldb")),
        ScanRoot::Installation
    );
    assert_eq!(
        resolve_postman_scan_root(false, Some("x.leveldb"), Some("leveldb")),
        ScanRoot::Installation
    );
    assert_eq!(
        resolve_postman_scan_root(false, Some("Postman"), None),
        ScanRoot::Given
    );
    assert_eq!(resolve_postman_context_root(&vec![false, true, true]), Some(1));
    assert_eq!(resolve_postman_context_root(&vec![false]), None);
    assert_eq!(
        resolve_leveldb_directories_for_import(false, Some("a.leveldb"), None, None),
        StoreChoice::Given
    );
    assert_eq!(
        resolve_leveldb_directories_for_import(
            true,
            Some("1.log"),
            Some("log"),
            Some("a.leveldb")
        ),
        StoreChoice::Enclosing
    );
    assert_eq!(
        resolve_leveldb_directories_for_import(true, Some("1.log"), Some("log"), Some("a")),
        StoreChoice::Nothing
    );
    assert_eq!(
        resolve_leveldb_directories_for_import(false, Some("Postman"), None, None),
        StoreChoice::Best
    );
}
