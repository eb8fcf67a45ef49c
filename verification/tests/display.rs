use mailman::display::{
    chunk_response_body, copied_text, field_path, find_chunk_split, item_key, item_path,
    json_label, json_preview, list_title, method_color, scripts_label, status_code_color,
    tab_label, MAX_CHUNK,
};
use mailman::json::{json_pretty, json_value_to_string, parse_json, read_json, Json};
use mailman::responses::json_path_extract;
use mailman::text::{
    decimal_text, less, parse_index, split_lines, trimmed, whitespace,
};

fn json(text: &str) -> Json {
    parse_json(text).expect("is JSON")
}

#[test]
fn long_lines_are_broken_at_tokens() {
    let line = format!("{}, {}", "a".repeat(390), "b".repeat(500));
    let chunks = chunk_response_body(&format!("short\n{line}\r\n\nlast"));
    assert_eq!(chunks[0], "short");
    assert_eq!(chunks[1], format!("{}, ", "a".repeat(390)));
    assert_eq!(chunks[2], "b".repeat(400));
    assert_eq!(chunks[3], "b".repeat(100));
    assert_eq!(chunks[4], "");
    assert_eq!(chunks[5], "last");
    assert_eq!(chunks.len(), 6);
}

#[test]
fn chunks_are_short_and_hold_the_body() {
    let body = "é".repeat(333) + &"日本".repeat(200) + "{\"a\":[1,2]}" + &"😀".repeat(250);
    let chunks = chunk_response_body(&body);
    assert!(chunks.iter().all(|chunk| chunk.len() <= MAX_CHUNK));
    assert_eq!(chunks.concat(), body);
    let chars: Vec<char> = "ab,cd".chars().collect();
    assert_eq!(find_chunk_split(&chars, 0, 4), 3);
    assert_eq!(find_chunk_split(&chars, 3, 1), 4);
}

#[test]
fn splits_stand_at_or_before_the_target() {
    assert_eq!(find_chunk_split(&vec![], 0, 5), 0);
    assert_eq!(find_chunk_split(&vec!['é'], 0, 0), 0);
    assert_eq!(find_chunk_split(&vec!['é'], 0, 1), 0);
    assert_eq!(find_chunk_split(&vec!['é'], 0, 2), 1);
    assert_eq!(find_chunk_split(&vec!['é'], 1, 2), 1);
    let chars: Vec<char> = "ab cdé".chars().collect();
    assert_eq!(find_chunk_split(&chars, 0, 2), 2);
    assert_eq!(find_chunk_split(&chars, 0, 5), 3);
    assert_eq!(find_chunk_split(&chars, 3, 3), 5);
    assert_eq!(find_chunk_split(&chars, 3, 400), 6);
}

#[test]
fn previews_stay_on_one_line() {
    assert_eq!(json_preview(&json(r#"["a\nb"]"#), 80), "[\"a b\"]");
    assert_eq!(json_preview(&json(r#"{"k\r\n":"v\u2028w"}"#), 80), "{ \"k  \": \"v w\" }");
    assert_eq!(json_preview(&json(r#"["a\nb"]"#), 4), "[\"a …");
    assert_eq!(json_preview(&json(r#"["a\nb"]"#), 0), "…");
    assert_eq!(json_preview(&json(r#""a\nb""#), 80), "");
}

#[test]
fn values_are_previewed() {
    let value = json(r#"{"a":"x","b":[1,2],"c":{"d":null},"e":null,"f":true,"g":1.5}"#);
    assert_eq!(
        json_preview(&value, 80),
        "{ \"a\": \"x\", \"b\": […2], \"c\": {…1}, \"e\": null, \"f\": true, \"g\": 1.5 }"
    );
    assert_eq!(json_preview(&value, 5), "{ \"a\"…");
    assert_eq!(json_preview(&json(r#"["x",{},[]]"#), 80), "[\"x\", {…0}, […0]]");
    assert_eq!(json_preview(&json("1"), 80), "");
    assert_eq!(json_label(None, &value, "$"), "{} 6");
    assert_eq!(json_label(Some("k"), &json("[1]"), "$"), "k: [] 1");
    assert_eq!(json_label(Some("k"), &json("[1]"), "$.k"), "k: [1]");
    assert_eq!(json_label(Some("k"), &json("\"t\""), "$.k"), "\"t\"");
    assert_eq!(field_path("$", "a"), "$.a");
    assert_eq!(item_path("$.a", 3), "$.a[3]");
    assert_eq!(item_key(3), "[3]");
}

#[test]
fn texts_are_copied_without_quotes() {
    assert_eq!(copied_text("\"Gold\""), "Gold");
    assert_eq!(copied_text("\""), "\"");
    assert_eq!(copied_text("12"), "12");
}

#[test]
fn requests_have_colours_and_labels() {
    assert_eq!(method_color("GET"), (97, 175, 239));
    assert_eq!(method_color("POST"), (152, 195, 121));
    assert_eq!(method_color("PUT"), (229, 192, 123));
    assert_eq!(method_color("PATCH"), (198, 120, 221));
    assert_eq!(method_color("DELETE"), (224, 108, 117));
    assert_eq!(method_color("get"), (171, 178, 191));
    assert_eq!(status_code_color(204), (80, 195, 130));
    assert_eq!(status_code_color(399), (80, 175, 220));
    assert_eq!(status_code_color(404), (225, 155, 55));
    assert_eq!(status_code_color(500), (230, 80, 80));
    assert_eq!(status_code_color(100), (140, 140, 155));
    assert_eq!(tab_label("GET", "", true), "GET * Untitled");
    assert_eq!(tab_label("GET", "Users", false), "GET Users");
    assert_eq!(list_title(" ", false), "Untitled Request");
    assert_eq!(list_title("", true), "* ");
    assert_eq!(list_title("Users", false), "Users");
    assert_eq!(scripts_label(1), "1 script ran");
    assert_eq!(scripts_label(3), "3 scripts ran");
}

#[test]
fn values_are_extracted_by_path() {
    let value = json(r#"{"data":{"t":"x","n":1.0,"z":null,"l":[1,{"k":true}]},"0":"zero"}"#);
    let at = |path: &str| json_path_extract(&value, path);
    assert_eq!(at("data.t").as_deref(), Some("x"));
    assert_eq!(at("data.n").as_deref(), Some("1.0"));
    assert_eq!(at("data.z").as_deref(), Some("null"));
    assert_eq!(at("data.l.1.k").as_deref(), Some("true"));
    assert_eq!(at("data.l").as_deref(), Some("[1,{\"k\":true}]"));
    assert_eq!(at("data.l.+1.k").as_deref(), Some("true"));
    assert_eq!(at("0"), None);
    assert_eq!(at("data.l.2"), None);
    assert_eq!(at("data..t"), None);
}

#[test]
fn indexes_are_read_as_the_machine_reads_them() {
    for text in [
        "0", "7", "+7", "-1", "", "+", "++1", "007", "1a", "1_0", "٣", "18446744073709551615",
        "18446744073709551616", "99999999999999999999999", "+18446744073709551615",
    ] {
        assert_eq!(parse_index(text), text.parse::<usize>().ok(), "for {text:?}");
    }
}

#[test]
fn json_is_read_and_written() {
    let value = json(r#"{"b":1,"a":[true,null,"x"]}"#);
    assert_eq!(json_value_to_string(&value), r#"{"a":[true,null,"x"],"b":1}"#);
    assert_eq!(json_pretty(&json("[1]")), "[\n  1\n]");
    assert_eq!(json_value_to_string(&json("\"x\"")), "x");
    assert_eq!(json_value_to_string(&json("null")), "");
    assert_eq!(
        read_json("[1").err().as_deref(),
        Some("EOF while parsing a list at line 1 column 2")
    );
}

#[test]
fn text_primitives_are_those_of_the_language() {
    for code in 0..=0x10ffff_u32 {
        if let Some(c) = char::from_u32(code) {
            assert_eq!(whitespace(c), c.is_whitespace(), "for {code:x}");
        }
    }
    for text in ["", " a ", "\u{2003}x\u{85}", "a b", "\r\n"] {
        assert_eq!(trimmed(text), text.trim());
    }
    for text in ["", "a", "a\n", "a\nb", "a\r\nb\r", "\n\n", "\r\n\r\n"] {
        let lines: Vec<String> = text.lines().map(str::to_owned).collect();
        assert_eq!(split_lines(text), lines, "for {text:?}");
    }
    let words = ["", "a", "ab", "b", "é", "z", "😀", "\u{ffff}"];
    for a in words {
        for b in words {
            assert_eq!(less(a, b), a < b, "for {a:?} and {b:?}");
        }
    }
    assert_eq!(decimal_text(u64::MAX), u64::MAX.to_string());
    assert_eq!(decimal_text(0), "0");
}
