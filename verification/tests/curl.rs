use mailman::http::{
    build_curl_command, failed_response, finish_request, prepare_request, response_of,
    shell_single_quote, start_request, Reply,
};
use mailman::models::{Endpoint, KeyValue};
use mailman::request_body::{computed_default_content_length, LoadedFile, PreparedRequestBody};
use mailman::table::TextMap;
use reqwest::Method;

#[test]
fn build_curl_command_resolves_env_and_quotes_values() {
    let endpoint = Endpoint {
        id: "ep-test".to_owned(),
        source_request_id: String::new(),
        source_collection_id: String::new(),
        source_folder_id: String::new(),
        name: "Create".to_owned(),
        collection: "General".to_owned(),
        folder_path: String::new(),
        method: "post".to_owned(),
        url: "https://${api_host}/v1/resource?x=${x}".to_owned(),
        query_params: vec![],
        headers: vec![
            KeyValue {
                key: "Authorization".to_owned(),
                value: "Bearer ${token}".to_owned(),
            },
            KeyValue {
                key: "X-Note".to_owned(),
                value: "it's-live".to_owned(),
            },
        ],
        body_mode: "raw".to_owned(),
        body: "{\"name\":\"${name}\"}".to_owned(),
        scripts: vec![],
    };

    let mut vars = TextMap::new();
    vars.insert("api_host".to_owned(), "example.com".to_owned());
    vars.insert("x".to_owned(), "1".to_owned());
    vars.insert("token".to_owned(), "abc".to_owned());
    vars.insert("name".to_owned(), "joel".to_owned());

    let curl = build_curl_command(&endpoint, &vars);

    assert!(curl.contains("--request 'POST'"));
    assert!(curl.contains("--url 'https://example.com/v1/resource?x=1'"));
    assert!(curl.contains("--header 'Authorization: Bearer abc'"));
    assert!(curl.contains("--header 'X-Note: it'\\''s-live'"));
    assert!(curl.contains("--data-raw '{\"name\":\"joel\"}'"));
}

#[test]
fn build_curl_command_uses_form_flag_for_form_data_mode() {
    let endpoint = Endpoint {
        id: "ep-test".to_owned(),
        source_request_id: String::new(),
        source_collection_id: String::new(),
        source_folder_id: String::new(),
        name: "Upload".to_owned(),
        collection: "General".to_owned(),
        folder_path: String::new(),
        method: "POST".to_owned(),
        url: "https://example.com/upload".to_owned(),
        query_params: vec![],
        headers: vec![],
        body_mode: "form-data".to_owned(),
        body: "name=joel\nfile=@/tmp/payload.bin".to_owned(),
        scripts: vec![],
    };
    let curl = build_curl_command(&endpoint, &TextMap::new());

    assert!(curl.contains("--form 'name=joel'"));
    assert!(curl.contains("--form 'file=@/tmp/payload.bin'"));
}

fn plain(method: &str, url: &str) -> Endpoint {
    Endpoint::with_defaults("ep-test".to_owned(), "Test", method, url)
}

fn error_of(endpoint: &Endpoint) -> String {
    match prepare_request(endpoint, &TextMap::new()) {
        Some(Err(message)) => message,
        _ => panic!("is prepared"),
    }
}

#[test]
fn execute_request_rejects_invalid_header_name_with_clear_error() {
    let endpoint = Endpoint {
        id: "ep-test".to_owned(),
        source_request_id: String::new(),
        source_collection_id: String::new(),
        source_folder_id: String::new(),
        name: "Bad Header".to_owned(),
        collection: "General".to_owned(),
        folder_path: String::new(),
        method: "GET".to_owned(),
        url: "https://example.com".to_owned(),
        query_params: vec![],
        headers: vec![KeyValue {
            key: "Bad Header".to_owned(),
            value: "Bearer abc".to_owned(),
        }],
        body_mode: "none".to_owned(),
        body: String::new(),
        scripts: vec![],
    };

    let output = failed_response(error_of(&endpoint));
    assert!(output
        .error
        .as_deref()
        .unwrap_or_default()
        .contains("Invalid header name"));
}

#[test]
fn computed_default_content_length_sets_zero_for_empty_post() {
    assert_eq!(
        computed_default_content_length(Method::POST.as_str(), false, None, false),
        Some("0".to_owned())
    );
}

#[test]
fn computed_default_content_length_matches_body_size_when_present() {
    let body = "grant_type=client_credentials";
    assert!(
        computed_default_content_length(Method::POST.as_str(), false, Some(body.len()), true)
            == Some(body.len().to_string())
    );
}

#[test]
fn curl_commands_are_written_over_several_lines() {
    let mut endpoint = plain("get", "https://example.com");
    endpoint.headers.push(KeyValue::new("A", "b"));
    assert_eq!(
        build_curl_command(&endpoint, &TextMap::new()),
        "curl \\\n  --request 'GET' \\\n  --url 'https://example.com' \\\n  --header 'A: b'"
    );
    assert_eq!(shell_single_quote("it's"), "'it'\\''s'");
}

#[test]
fn requests_name_what_is_wrong_with_them() {
    assert_eq!(
        error_of(&plain("G T", "https://example.com")),
        "Invalid HTTP method 'G T': invalid HTTP method"
    );
    assert_eq!(
        error_of(&plain("GET", "  ")),
        "Request URL is empty after placeholder resolution."
    );
    let mut endpoint = plain("GET", "https://example.com");
    endpoint.headers.push(KeyValue::new("Name", "a\u{7f}b"));
    assert_eq!(
        error_of(&endpoint),
        "Invalid header value for 'name': failed to parse header value"
    );
    let mut endpoint = plain("POST", "https://example.com");
    endpoint.body_mode = "binary".to_owned();
    endpoint.body = "@".to_owned();
    assert!(error_of(&endpoint).starts_with("Failed to prepare request body: "));
}

#[test]
fn methods_and_header_names_are_those_of_the_crate() {
    for method in ["get", "PATCH", "M-SEARCH", "a b", "", "é", "X{Y}", "A|B~`^"] {
        let upper = method.trim().to_uppercase();
        let accepted = Method::from_bytes(upper.as_bytes()).is_ok();
        let prepared = prepare_request(&plain(method, "https://example.com"), &TextMap::new());
        assert_eq!(matches!(prepared, Some(Ok(_))), accepted, "for {method:?}");
    }
    for name in ["Accept", "x-y_z", "a b", "a:b", "é", "~", "\"q\"", "tab\tname"] {
        let accepted = reqwest::header::HeaderName::from_bytes(name.as_bytes()).is_ok();
        let mut endpoint = plain("GET", "https://example.com");
        endpoint.headers.push(KeyValue::new(name, "v"));
        let prepared = prepare_request(&endpoint, &TextMap::new());
        assert_eq!(matches!(prepared, Some(Ok(_))), accepted, "for {name:?}");
    }
    for value in ["plain", "tab\there", "new\nline", "é", "\u{7f}", "a\u{1}b"] {
        let accepted = reqwest::header::HeaderValue::from_str(value.trim()).is_ok();
        let mut endpoint = plain("GET", "https://example.com");
        endpoint.headers.push(KeyValue::new("x", value));
        let prepared = prepare_request(&endpoint, &TextMap::new());
        assert_eq!(matches!(prepared, Some(Ok(_))), accepted, "for {value:?}");
    }
}

#[test]
fn default_headers_are_added_where_none_is_given() {
    let mut endpoint = plain("post", "https://example.com");
    endpoint.body_mode = "raw".to_owned();
    endpoint.body = "{}".to_owned();
    let request = match prepare_request(&endpoint, &TextMap::new()) {
        Some(Ok(request)) => request,
        _ => panic!("is prepared"),
    };
    assert_eq!(request.method, "POST");
    assert_eq!(
        request.headers,
        vec![
            KeyValue::new("user-agent", "curl/8.0.0"),
            KeyValue::new("accept", "*/*"),
            KeyValue::new("content-length", "2"),
            KeyValue::new("content-type", "application/json"),
        ]
    );
}

#[test]
fn files_are_loaded_between_start_and_finish() {
    let mut endpoint = plain("POST", "https://example.com");
    endpoint.body_mode = "form-data".to_owned();
    endpoint.body = "name=joel\nfile=@/tmp/payload.bin".to_owned();
    let vars = TextMap::new();
    assert!(prepare_request(&endpoint, &vars).is_none());
    let start = start_request(&endpoint, &vars).expect("can start");
    assert_eq!(start.file_paths, vec!["/tmp/payload.bin".to_owned()]);
    let file = LoadedFile {
        name: Some("payload.bin".to_owned()),
        bytes: vec![1, 2, 3],
    };
    let request = finish_request(&endpoint, &vars, start, vec![file]).expect("can finish");
    match request.body {
        PreparedRequestBody::Multipart(parts) => assert_eq!(parts.len(), 2),
        _ => panic!("is a form"),
    }
}

#[test]
fn answers_are_shown() {
    let shown = response_of(Ok(Reply {
        status_code: 299,
        reason: None,
        duration_ms: 5,
        headers: vec![
            ("a".to_owned(), Some("b".to_owned())),
            ("c".to_owned(), None),
        ],
        body: Err("bad charset".to_owned()),
    }));
    assert_eq!(shown.status_code, Some(299));
    assert_eq!(shown.status_text, "Unknown");
    assert_eq!(
        shown.headers,
        vec![KeyValue::new("a", "b"), KeyValue::new("c", "<non-utf8>")]
    );
    assert_eq!(shown.body, "Failed to decode response body: bad charset");
    assert_eq!(shown.error, None);

    let failed = response_of(Err("no route".to_owned()));
    assert_eq!(failed.error.as_deref(), Some("Request failed: no route"));
    assert_eq!(failed.status_code, None);
}
