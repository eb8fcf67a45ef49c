use mailman::request_body::{
    default_content_type_for_mode, normalize_body_mode, parse_body_fields,
    should_add_default_content_type,
};

#[test]
fn default_content_type_is_added_for_body_when_missing() {
    assert!(should_add_default_content_type(true, false));
    assert!(!should_add_default_content_type(true, true));
    assert!(!should_add_default_content_type(false, false));
}

#[test]
fn infer_default_content_type_prefers_json_for_json_bodies() {
    assert_eq!(
        default_content_type_for_mode("raw", "{\"name\":\"joel\"}"),
        Some("application/json")
    );
    assert_eq!(
        default_content_type_for_mode("raw", "   [1,2,3]"),
        Some("application/json")
    );
}

#[test]
fn infer_default_content_type_falls_back_to_text_for_non_json_bodies() {
    assert_eq!(
        default_content_type_for_mode("raw", "grant_type=client_credentials"),
        Some("text/plain")
    );
    assert_eq!(
        default_content_type_for_mode("raw", "plain text"),
        Some("text/plain")
    );
}

#[test]
fn default_content_type_changes_by_body_mode() {
    assert_eq!(
        default_content_type_for_mode("urlencoded", "a=1"),
        Some("application/x-www-form-urlencoded")
    );
    assert_eq!(
        default_content_type_for_mode("binary", "@/tmp/body.bin"),
        Some("application/octet-stream")
    );
    assert_eq!(default_content_type_for_mode("form-data", "a=1"), None);
}

#[test]
fn normalize_body_mode_handles_aliases() {
    assert_eq!(normalize_body_mode("formdata"), "form-data");
    assert_eq!(normalize_body_mode("multipart/form-data"), "form-data");
    assert_eq!(normalize_body_mode("x-www-form-urlencoded"), "urlencoded");
    assert_eq!(normalize_body_mode("file"), "binary");
    assert_eq!(normalize_body_mode("raw"), "raw");
}

#[test]
fn parse_body_fields_supports_line_and_ampersand_separated_values() {
    let fields = parse_body_fields("a=1&b=2\nc=3");
    assert_eq!(
        fields,
        vec![
            ("a".to_owned(), "1".to_owned()),
            ("b".to_owned(), "2".to_owned()),
            ("c".to_owned(), "3".to_owned())
        ]
    );
}
