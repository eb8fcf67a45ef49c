use mailman::json::{parse_json, Json};
use mailman::postman::{
    auth_headers_from_value, auth_query_pairs_from_value, parse_header_like_line,
    parse_key_value_entries, postman_path_like_value_to_string, render_postman_body_payload,
    request_body_from_data, request_body_mode_from_data, request_headers_from_data,
    request_query_pairs_from_data, request_url_from_data,
};
use mailman::postman_cache::{
    endpoint_from_cache_object, environment_from_cache_object, WorkspaceImportContext,
};
use mailman::postman_export::{
    parse_postman_collection, parse_postman_environment, postman_request_from_json,
    postman_request_url, render_postman_formdata_fields, PostmanCollectionExport,
    PostmanCollectionItem, PostmanEnvironmentExport, PostmanEnvironmentValue, PostmanField,
};

fn object(text: &str) -> Vec<(String, Json)> {
    match parse_json(text) {
        Some(Json::Record(fields)) => fields,
        _ => panic!("payload should be an object"),
    }
}

#[test]
fn cache_request_query_params_are_appended_to_url() {
    let payload = object(
        r#"{
            "url": { "raw": "https://api.example.com/v1/items" },
            "queryParams": [
                { "key": "limit", "value": "10" },
                { "key": "token", "value": "{{api_token}}" }
            ]
        }"#,
    );

    let url = request_url_from_data(&payload).expect("url should be parsed");

    assert_eq!(
        url,
        "https://api.example.com/v1/items?limit=10&token=${api_token}"
    );
}

#[test]
fn cache_request_body_imports_data_mode_payloads() {
    let payload = object(
        r#"{
            "dataMode": "urlencoded",
            "data": [
                { "key": "email", "value": "dev@example.com" },
                { "key": "password", "value": "{{password}}" }
            ]
        }"#,
    );

    let body = request_body_from_data(&payload);

    assert_eq!(body, "email=dev@example.com&password=${password}");
}

#[test]
fn cache_request_headers_import_object_shape() {
    let payload = object(
        r#"{
            "headers": {
                "X-Workspace": "{{workspace_id}}",
                "Accept": "application/json"
            }
        }"#,
    );

    let headers = request_headers_from_data(&payload);

    assert_eq!(headers.len(), 2);
    assert!(headers
        .iter()
        .any(|header| header.key == "X-Workspace" && header.value == "${workspace_id}"));
    assert!(headers
        .iter()
        .any(|header| header.key == "Accept" && header.value == "application/json"));
}

#[test]
fn cache_request_auth_bearer_becomes_authorization_header() {
    let payload = object(
        r#"{
            "auth": {
                "type": "bearer",
                "bearer": [
                    { "key": "token", "value": "{{api_token}}" }
                ]
            }
        }"#,
    );

    let headers = request_headers_from_data(&payload);

    assert!(headers
        .iter()
        .any(|header| header.key == "Authorization" && header.value == "Bearer ${api_token}"));
}

#[test]
fn cache_request_auth_apikey_query_is_appended_to_url() {
    let payload = object(
        r#"{
            "url": { "raw": "https://api.example.com/search" },
            "auth": {
                "type": "apikey",
                "apikey": [
                    { "key": "key", "value": "api_key" },
                    { "key": "value", "value": "{{token}}" },
                    { "key": "in", "value": "query" }
                ]
            }
        }"#,
    );

    let url = request_url_from_data(&payload).expect("url should be parsed");

    assert_eq!(url, "https://api.example.com/search?api_key=${token}");
}

#[test]
fn request_body_mode_from_data_detects_formdata_and_binary() {
    let form_payload = object(
        r#"{
            "body": {
                "mode": "formdata",
                "formdata": [{ "key": "name", "value": "joel" }]
            }
        }"#,
    );
    assert_eq!(request_body_mode_from_data(&form_payload), "form-data");

    let binary_payload = object(
        r#"{
            "body": {
                "mode": "file",
                "file": { "src": "/tmp/payload.bin" }
            }
        }"#,
    );
    assert_eq!(request_body_mode_from_data(&binary_payload), "binary");
}

#[test]
fn render_postman_formdata_fields_handles_file_and_text_values() {
    let fields = vec![
        PostmanField {
            key: Some("metadata".to_owned()),
            value: Some(Json::Text("abc".to_owned())),
            field_type: Some("text".to_owned()),
            src: None,
            disabled: None,
            enabled: None,
        },
        PostmanField {
            key: Some("upload".to_owned()),
            value: None,
            field_type: Some("file".to_owned()),
            src: Some(Json::Text("/tmp/payload.bin".to_owned())),
            disabled: None,
            enabled: None,
        },
    ];

    assert_eq!(
        render_postman_formdata_fields(&fields),
        "metadata=abc\nupload=@/tmp/payload.bin"
    );
}

#[test]
fn cache_request_without_collection_id_is_kept_when_filter_is_present() {
    let cached = object(
        r#"{
            "meta": { "model": "request" },
            "data": {
                "name": "No Collection",
                "method": "GET",
                "url": "https://example.com/no-collection"
            }
        }"#,
    );

    let mut import_context = WorkspaceImportContext::default();
    import_context.collection_ids.insert("col-keep".to_owned());
    let endpoint =
        endpoint_from_cache_object(&cached, &import_context).expect("endpoint should be parsed");

    assert_eq!(endpoint.name, "No Collection");
}

#[test]
fn cache_request_of_another_collection_is_left_out() {
    let cached = object(
        r#"{
            "meta": { "model": "request" },
            "data": {
                "name": "Other",
                "method": "GET",
                "url": "https://example.com/other",
                "collection": "col-other"
            }
        }"#,
    );
    let mut import_context = WorkspaceImportContext::default();
    import_context.collection_ids.insert("col-keep".to_owned());
    assert!(endpoint_from_cache_object(&cached, &import_context).is_none());
    import_context.collection_ids.insert("col-other".to_owned());
    let endpoint = endpoint_from_cache_object(&cached, &import_context).expect("is wanted now");
    assert_eq!(endpoint.source_collection_id, "col-other");
    assert!(endpoint.id.starts_with("ep-"));
}

#[test]
fn auth_is_sent_once_in_header_or_query() {
    let in_header = parse_json(
        r#"{"type":"apikey","apikey":{"key":"X-Key","value":"{{k}}","in":"header"}}"#,
    )
    .expect("is JSON");
    let headers = auth_headers_from_value(&in_header);
    assert_eq!(headers.len(), 1);
    assert_eq!(headers[0].key, "X-Key");
    assert_eq!(headers[0].value, "${k}");
    assert_eq!(auth_query_pairs_from_value(&in_header).len(), 0);

    let in_query =
        parse_json(r#"{"type":"apikey","apikey":{"key":"k","value":"v","in":"query"}}"#)
            .expect("is JSON");
    assert_eq!(auth_headers_from_value(&in_query).len(), 0);
    assert_eq!(auth_query_pairs_from_value(&in_query).len(), 1);
}

#[test]
fn key_value_entries_come_from_lists_records_and_text() {
    let list = parse_json(r#"[{"key":" a ","value":1},{"key":"b","value":"2","disabled":true}]"#)
        .expect("is JSON");
    let pairs = parse_key_value_entries(&list);
    assert_eq!(pairs.len(), 1);
    assert_eq!((pairs[0].key.as_str(), pairs[0].value.as_str()), ("a", "1"));

    let line = parse_header_like_line("Accept: text/html").expect("is a header");
    assert_eq!((line.key.as_str(), line.value.as_str()), ("Accept", "text/html"));
    assert!(parse_header_like_line("no separator").is_none());
}

#[test]
fn query_pairs_are_listed_once() {
    let payload = object(
        r#"{"queryParams":[{"key":"a","value":"1"}],"params":[{"key":"a","value":"1"}]}"#,
    );
    assert_eq!(request_query_pairs_from_data(&payload).len(), 1);
}

#[test]
fn paths_are_joined() {
    let parts = parse_json(r#"["api","v1",{"value":"items"}]"#).expect("is JSON");
    assert_eq!(
        postman_path_like_value_to_string(&parts).as_deref(),
        Some("api/v1")
    );
}

#[test]
fn raw_bodies_are_kept_and_placeholders_converted() {
    let raw = parse_json(r#""{\"a\":\"{{b}}\"}""#).expect("is JSON");
    assert_eq!(render_postman_body_payload(&raw, "raw"), "{\"a\":\"${b}\"}");
}

#[test]
fn collections_are_flattened_with_their_folders() {
    let request = postman_request_from_json(
        &parse_json(r#"{"method":"post","url":"https://example.com/{{x}}"}"#).expect("is JSON"),
    )
    .expect("is a request");
    assert_eq!(
        postman_request_url(&request).as_deref(),
        Some("https://example.com/{{x}}")
    );
    let export = PostmanCollectionExport {
        name: Some("Shop".to_owned()),
        item: Some(vec![PostmanCollectionItem {
            name: Some("Orders".to_owned()),
            request: None,
            item: Some(vec![PostmanCollectionItem {
                name: Some("Create".to_owned()),
                request: Some(request),
                item: None,
            }]),
        }]),
    };
    let endpoints = parse_postman_collection(&export).expect("has requests");
    assert_eq!(endpoints.len(), 1);
    assert_eq!(endpoints[0].collection, "Shop");
    assert_eq!(endpoints[0].folder_path, "Orders");
    assert_eq!(endpoints[0].name, "Create");
    assert_eq!(endpoints[0].method, "POST");
    assert_eq!(endpoints[0].url, "https://example.com/${x}");
}

#[test]
fn exported_environments_leave_out_disabled_variables() {
    let export = PostmanEnvironmentExport {
        name: Some("qa".to_owned()),
        values: Some(vec![
            PostmanEnvironmentValue {
                key: Some("host".to_owned()),
                value: Some(Json::Text("qa.example.com".to_owned())),
                enabled: None,
            },
            PostmanEnvironmentValue {
                key: Some("old".to_owned()),
                value: Some(Json::Text("x".to_owned())),
                enabled: Some(false),
            },
        ]),
    };
    let environment = parse_postman_environment(&export, Some("file".to_owned())).expect("has variables");
    assert_eq!(environment.name, "qa");
    assert_eq!(environment.variables.len(), 1);
    assert_eq!(environment.variables[0].key, "host");
}

#[test]
fn cached_environments_are_found() {
    let cached = object(
        r#"{"meta":{"model":"environment"},"data":{"name":"dev","values":[{"key":"a","value":"1"}]}}"#,
    );
    let environment = environment_from_cache_object(&cached, &WorkspaceImportContext::default())
        .expect("is an environment");
    assert_eq!(environment.name, "dev");
    assert_eq!(environment.variables[0].value, "1");
}
