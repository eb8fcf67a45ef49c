use mailman::bundles::exported_message;
use mailman::discovery::{is_indexed_database_file, is_local_storage_file};
use mailman::display::status_label;
use mailman::editor::{
    body_editor, body_mode_label, body_of_rows, body_rows, headers_title, is_spare_row,
    params_title, scripts_title, BodyEditor,
};
use mailman::import::ImportSummary;
use mailman::models::{method_options, Endpoint, KeyValue, ResponseScript, ResponseState};
use mailman::postman_cache::ImportScanResult;
use mailman::postman_export::{
    PostmanCollectionExport, PostmanCollectionItem, PostmanEnvironmentExport,
    PostmanEnvironmentValue, PostmanRequest, PostmanUrl,
};
use mailman::request_body::{body_mode_options, parse_body_fields, serialize_body_fields};
use mailman::scan::scan_postman_json_export;
use mailman::session::{session_choice, session_choices};
use mailman::tabs::{PrettyView, RequestTab};

fn request() -> Endpoint {
    Endpoint::with_defaults("ep-1".to_owned(), "Users", "GET", "https://example.com")
}

fn rule(key: &str) -> ResponseScript {
    ResponseScript {
        extract_key: key.to_owned(),
        env_var: "token".to_owned(),
    }
}

#[test]
fn titles_count_what_has_a_name() {
    let mut endpoint = request();
    endpoint.query_params = vec![
        KeyValue::new("a", "1"),
        KeyValue::new("  ", "2"),
        KeyValue::new("b", ""),
    ];
    endpoint.headers = vec![KeyValue::new("", "x")];
    endpoint.scripts = vec![];
    assert_eq!(params_title(&endpoint), "Params (2)");
    assert_eq!(headers_title(&endpoint.headers), "Headers (0)");
    assert_eq!(scripts_title(&endpoint), "Scripts");
    endpoint.scripts = vec![rule("data.id"), rule(" ")];
    assert_eq!(scripts_title(&endpoint), "Scripts (1)");
}

#[test]
fn bodies_are_edited_by_their_mode() {
    assert_eq!(body_mode_label("urlencoded"), "x-www-form-urlencoded");
    assert_eq!(body_mode_label("raw"), "raw");
    assert!(matches!(
        body_editor("x-www-form-urlencoded"),
        BodyEditor::Table { separator: "&", hint: "value", .. }
    ));
    assert!(matches!(
        body_editor("formdata"),
        BodyEditor::Table { separator: "\n", .. }
    ));
    assert!(matches!(
        body_editor("file"),
        BodyEditor::Plain { hint: "@/tmp/payload.bin" }
    ));
    assert!(matches!(body_editor("none"), BodyEditor::Plain { .. }));
}

#[test]
fn table_has_a_spare_row() {
    let rows = body_rows("a=1&b");
    assert_eq!(
        rows,
        vec![
            KeyValue::new("a", "1"),
            KeyValue::new("b", ""),
            KeyValue::new("", "")
        ]
    );
    assert!(!is_spare_row(&rows, 1));
    assert!(is_spare_row(&rows, 2));
    assert!(!is_spare_row(&rows, 3));
    assert_eq!(body_of_rows(rows, None, "&"), "a=1&b");
    assert_eq!(body_of_rows(body_rows("a=1&b"), Some(0), "\n"), "b");
    assert_eq!(body_of_rows(body_rows("a=1&b"), Some(7), "\n"), "a=1\nb");
}

#[test]
fn fields_are_written_and_read_back() {
    let fields = vec![
        KeyValue::new(" a ", " 1=2 "),
        KeyValue::new("", "lost"),
        KeyValue::new("b", " "),
    ];
    let body = serialize_body_fields(&fields, "\n");
    assert_eq!(body, "a=1=2\nb");
    let read = parse_body_fields(&body);
    assert_eq!(
        read,
        vec![
            ("a".to_owned(), "1=2".to_owned()),
            ("b".to_owned(), String::new())
        ]
    );
    let messy = " a = 1 &\n=x\n c==2\n&&";
    let rows = body_rows(messy);
    assert_eq!(
        parse_body_fields(&body_of_rows(rows, None, "&")),
        parse_body_fields(messy)
    );
}

#[test]
fn options_are_on_offer() {
    assert_eq!(
        body_mode_options(),
        vec!["none", "raw", "urlencoded", "form-data", "binary"]
    );
    assert!(method_options().contains(&"GET"));
    assert!(method_options().contains(&"DELETE"));
}

#[test]
fn pretty_view_fits_the_body() {
    let mut tab = RequestTab::from_saved(request());
    assert!(matches!(
        tab.pretty_view(),
        PrettyView::Notice("No response body.")
    ));
    tab.response = ResponseState::default();
    tab.response.body = " {\"a\": 1} ".to_owned();
    assert!(matches!(
        tab.pretty_view(),
        PrettyView::Notice("Pretty view is only available for JSON responses.")
    ));
    tab.rebuild_response_caches();
    assert!(matches!(tab.pretty_view(), PrettyView::Tree));
    tab.response.body = "{".to_owned();
    tab.rebuild_response_caches();
    match tab.pretty_view() {
        PrettyView::Failure(message) => {
            assert!(message.starts_with("Not valid JSON: EOF while parsing"))
        }
        _ => panic!("is not JSON"),
    }
}

#[test]
fn sessions_are_chosen_by_their_days() {
    let choices = session_choices();
    assert_eq!(choices.len(), 6);
    assert_eq!(choices[session_choice(Some(7))], ("7 days", Some(7)));
    assert_eq!(choices[session_choice(Some(0))], ("Forever", Some(0)));
    assert_eq!(session_choice(None), 0);
    assert_eq!(session_choice(Some(3)), 0);
}

#[test]
fn messages_name_the_counts() {
    assert_eq!(status_label(404, "Not Found"), "404 Not Found");
    assert_eq!(
        exported_message(2, 1, "/tmp/a.mmbundle"),
        "Exported 2 endpoints and 1 environments to /tmp/a.mmbundle"
    );
    let mut summary = ImportSummary::default();
    summary.endpoints_added = 3;
    summary.environment_variables_merged = 12;
    assert_eq!(
        summary.to_bundle_message(),
        "Imported: 3 endpoints added, 0 updated, 0 environments, 12 env vars merged."
    );
}

#[test]
fn store_files_are_told_apart() {
    assert!(is_local_storage_file("/x/Local Storage/leveldb/000003.log"));
    assert!(!is_local_storage_file("/x/Session Storage/000003.log"));
    assert!(is_indexed_database_file("/x/https_a_0.indexeddb.leveldb/1.ldb"));
    assert!(!is_indexed_database_file("/x/leveldb/1.ldb"));
}

#[test]
fn exports_are_taken_in() {
    let get = PostmanRequest {
        id: None,
        method: Some("get".to_owned()),
        header: None,
        body: None,
        url: Some(PostmanUrl::RawString("https://{{host}}/users".to_owned())),
        auth: None,
    };
    let collection = PostmanCollectionExport {
        name: Some("Shop".to_owned()),
        item: Some(vec![PostmanCollectionItem {
            name: Some("Admin".to_owned()),
            request: None,
            item: Some(vec![PostmanCollectionItem {
                name: Some("Users".to_owned()),
                request: Some(get),
                item: None,
            }]),
        }]),
    };
    let environment = PostmanEnvironmentExport {
        name: None,
        values: Some(vec![PostmanEnvironmentValue {
            key: Some("host".to_owned()),
            value: None,
            enabled: None,
        }]),
    };
    let mut result = ImportScanResult::default();
    scan_postman_json_export(
        &Some(collection),
        &Some(environment),
        Some("dev".to_owned()),
        &mut result,
    );
    assert_eq!(result.endpoints.len(), 1);
    assert_eq!(result.endpoints[0].name, "Users");
    assert_eq!(result.endpoints[0].collection, "Shop");
    assert_eq!(result.endpoints[0].folder_path, "Admin");
    assert_eq!(result.endpoints[0].url, "https://${host}/users");
    assert_eq!(result.environments.len(), 1);
    assert_eq!(result.environments[0].name, "dev");
    assert_eq!(result.files_scanned, 0);
    scan_postman_json_export(&None, &None, None, &mut result);
    assert_eq!(result.endpoints.len(), 1);
}
