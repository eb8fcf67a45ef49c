use mailman::defaults::{default_endpoints, default_environments};
use mailman::models::{Endpoint, KeyValue};
use mailman::placeholders::{normalize_postman_placeholders, resolve_placeholders};
use mailman::table::TextMap;
use mailman::urls::{
    append_query_pairs_to_url, normalize_endpoint_url_and_query_params, resolve_endpoint_url,
    split_url_and_query_params,
};
use regex::{Captures, Regex};

#[test]
fn placeholder_substitution_works() {
    let mut vars = TextMap::new();
    vars.insert("api_host".to_owned(), "localhost:8080".to_owned());
    vars.insert("token".to_owned(), "abc123".to_owned());

    let output = resolve_placeholders("https://${api_host}/x?token=${token}", &vars);
    assert_eq!(output, "https://localhost:8080/x?token=abc123");
}

#[test]
fn normalize_endpoint_url_and_query_params_splits_existing_url_query() {
    let mut endpoint = Endpoint {
        id: "ep-query".to_owned(),
        source_request_id: String::new(),
        source_collection_id: String::new(),
        source_folder_id: String::new(),
        name: "Query".to_owned(),
        collection: "General".to_owned(),
        folder_path: String::new(),
        method: "GET".to_owned(),
        url: "https://api.example.com/items?limit=25&token=${token}".to_owned(),
        query_params: vec![],
        headers: vec![],
        body_mode: "none".to_owned(),
        body: String::new(),
        scripts: vec![],
    };

    normalize_endpoint_url_and_query_params(&mut endpoint);

    assert_eq!(endpoint.url, "https://api.example.com/items");
    assert_eq!(endpoint.query_params.len(), 2);
    assert_eq!(endpoint.query_params[0].key, "limit");
    assert_eq!(endpoint.query_params[0].value, "25");
    assert_eq!(endpoint.query_params[1].key, "token");
    assert_eq!(endpoint.query_params[1].value, "${token}");
}

#[test]
fn resolve_endpoint_url_appends_params_with_placeholders() {
    let endpoint = Endpoint {
        id: "ep-query-resolve".to_owned(),
        source_request_id: String::new(),
        source_collection_id: String::new(),
        source_folder_id: String::new(),
        name: "Query".to_owned(),
        collection: "General".to_owned(),
        folder_path: String::new(),
        method: "GET".to_owned(),
        url: "https://${api_host}/items".to_owned(),
        query_params: vec![
            KeyValue {
                key: "limit".to_owned(),
                value: "10".to_owned(),
            },
            KeyValue {
                key: "token".to_owned(),
                value: "${token}".to_owned(),
            },
        ],
        headers: vec![],
        body_mode: "none".to_owned(),
        body: String::new(),
        scripts: vec![],
    };

    let mut env = TextMap::new();
    env.insert("api_host".to_owned(), "api.example.com".to_owned());
    env.insert("token".to_owned(), "abc".to_owned());

    let resolved_url = resolve_endpoint_url(&endpoint, &env);
    assert_eq!(
        resolved_url,
        "https://api.example.com/items?limit=10&token=abc"
    );
}

#[test]
fn postman_placeholder_conversion_works() {
    let output = normalize_postman_placeholders("https://{{ host }}/x/{{token}}");
    assert_eq!(output, "https://${host}/x/${token}");
}

/// Texts made of the characters that placeholders are made of.
fn samples() -> Vec<String> {
    let pieces = [
        "$", "{", "}", "a", "B2", "_", "-", ".", " ", "\t", "${a}", "${_B2}", "${2a}", "{{a}}",
        "{{ a }}", "{{b.c}}", "{{}}", "é", "\u{a0}", "\n",
    ];
    let mut all = vec![String::new()];
    for a in pieces {
        for b in pieces {
            for c in pieces {
                all.push(format!("{a}{b}{c}"));
                all.push(format!("{{{a}{b}}}{c}"));
                all.push(format!("${{{a}{b}{c}}}"));
                all.push(format!("{{{{{a}{b}{c}}}}}"));
            }
        }
    }
    all
}

#[test]
fn placeholders_are_those_of_the_pattern() {
    let pattern = Regex::new(r"\$\{([A-Za-z_][A-Za-z0-9_]*)\}").expect("is a pattern");
    let mut vars = TextMap::new();
    vars.insert("a".to_owned(), "<1>".to_owned());
    vars.insert("_B2".to_owned(), "<2>".to_owned());
    for sample in samples() {
        let expected = pattern.replace_all(&sample, |caps: &Captures<'_>| match &caps[1] {
            "a" => "<1>".to_owned(),
            "_B2" => "<2>".to_owned(),
            _ => caps[0].to_owned(),
        });
        assert_eq!(resolve_placeholders(&sample, &vars), expected, "in {sample:?}");
    }
}

#[test]
fn postman_placeholders_are_those_of_the_pattern() {
    let pattern = Regex::new(r"\{\{\s*([A-Za-z0-9_.-]+)\s*\}\}").expect("is a pattern");
    for sample in samples() {
        let expected = pattern.replace_all(&sample, |caps: &Captures<'_>| {
            format!("${{{}}}", &caps[1])
        });
        assert_eq!(normalize_postman_placeholders(&sample), expected, "in {sample:?}");
    }
}

#[test]
fn unknown_placeholders_stay() {
    let vars: TextMap<String> = TextMap::new();
    assert_eq!(resolve_placeholders("${a}-${ b }-${", &vars), "${a}-${ b }-${");
}

#[test]
fn default_placeholders_are_defined() {
    for environment in default_environments() {
        let mut vars = TextMap::new();
        for pair in &environment.variables {
            vars.insert(pair.key.clone(), pair.value.clone());
        }
        for endpoint in default_endpoints() {
            assert!(!resolve_placeholders(&endpoint.url, &vars).contains("${"));
            assert!(!resolve_placeholders(&endpoint.body, &vars).contains("${"));
        }
        let host = &environment.variables[0].value;
        assert_eq!(
            resolve_placeholders(&default_endpoints()[0].url, &vars),
            format!("https://{host}/health")
        );
    }
}

#[test]
fn added_params_are_found_again() {
    let url = append_query_pairs_to_url(
        "https://example.com".to_owned(),
        &vec!["a=1".to_owned(), "b=2".to_owned()],
    );
    assert_eq!(url, "https://example.com?a=1&b=2");
    let (base, params) = split_url_and_query_params(&url);
    assert_eq!(base, "https://example.com");
    assert_eq!(params, vec![KeyValue::new("a", "1"), KeyValue::new("b", "2")]);
}

#[test]
fn added_params_leave_fragment_and_query() {
    let pairs = vec!["a=".to_owned(), "b".to_owned(), "c=1=2".to_owned()];
    let url = append_query_pairs_to_url("https://x/p#part?y".to_owned(), &pairs);
    assert_eq!(url, "https://x/p?a=&b&c=1=2#part?y");
    let (base, params) = split_url_and_query_params(&url);
    assert_eq!(base, "https://x/p#part?y");
    let added = vec![
        KeyValue::new("a", ""),
        KeyValue::new("b", ""),
        KeyValue::new("c", "1=2"),
    ];
    assert_eq!(params, added);

    for start in ["https://x?z=0#f", "https://x?z=0&#f"] {
        let url = append_query_pairs_to_url(start.to_owned(), &pairs);
        assert_eq!(url, "https://x?z=0&a=&b&c=1=2#f");
        let (base, params) = split_url_and_query_params(&url);
        assert_eq!(base, "https://x#f");
        assert_eq!(params[0], KeyValue::new("z", "0"));
        assert_eq!(params[1..], added[..]);
    }
    let url = append_query_pairs_to_url("https://x?".to_owned(), &pairs);
    assert_eq!(url, "https://x?a=&b&c=1=2");
    assert_eq!(split_url_and_query_params(&url).1, added);
}

#[test]
fn postman_placeholders_are_written_once() {
    for sample in ["{{{a}}}", "{{ a }}{{b.c-d}}", "{{a}", "{{{{x}}}}", "{{ \u{2003}n }}}"] {
        let once = normalize_postman_placeholders(sample);
        assert_eq!(normalize_postman_placeholders(&once), once, "in {sample:?}");
    }
    assert_eq!(normalize_postman_placeholders("{{{a}}}"), "{${a}}");
}

#[test]
fn setting_the_query_apart_is_done_once() {
    let mut endpoint = Endpoint::with_defaults("e".to_owned(), "n", "GET", "https://x?a=1");
    normalize_endpoint_url_and_query_params(&mut endpoint);
    let once = endpoint.clone();
    normalize_endpoint_url_and_query_params(&mut endpoint);
    assert_eq!(endpoint, once);
    assert_eq!(once.url, "https://x");
}
