//! Requests and environments in the data that Postman keeps.
use crate::defaults;
use crate::folders;
use crate::folders::stripped;
use crate::json;
use crate::json::{
    get, get_bool, get_content, get_record, get_text, json_pretty, json_value_to_string, Json,
    JsonTree,
};
use crate::merge;
use crate::merge::merge_header_pairs;
use crate::models::{EndpointView, KeyValue};
use crate::placeholders;
use crate::placeholders::normalize_postman_placeholders;
use crate::request_body;
use crate::request_body::normalize_body_mode_owned;
use crate::table::TextMap;
use crate::text;
use crate::text::{
    blank, concat2, concat3, contains_char, joined, non_empty_trimmed, same_text, split_lines,
    split_once, to_ascii_lower, to_upper, trimmed,
};
use crate::urls;
use vstd::prelude::*;
use vstd::string::*;

verus! {

/// The fields of a record.
pub type Fields = Seq<(Seq<char>, JsonTree)>;

/// Names with values.
pub type Pairs = Seq<(Seq<char>, Seq<char>)>;

// ---------------------------------------------------------------------------
// Names with values
// ---------------------------------------------------------------------------

/// Whether an entry is in use.
pub open spec fn is_enabled(entry: Fields) -> bool {
    json::bool_field(entry, "disabled"@) != Some(true) && json::bool_field(entry, "enabled"@)
        != Some(false)
}

pub fn postman_field_enabled(field: &Vec<(String, Json)>) -> (r: bool)
    ensures
        r == is_enabled(text::views(field@)),
{
    let disabled = match get_bool(field, "disabled") {
        Some(flag) => flag,
        None => false,
    };
    let enabled = match get_bool(field, "enabled") {
        Some(flag) => flag,
        None => true,
    };
    !disabled && enabled
}

/// The text of the value in a field; nothing where there is no such field.
pub open spec fn value_text(entry: Fields, key: Seq<char>) -> Seq<char> {
    match json::field(entry, key) {
        Some(value) => json::plain_text(value),
        None => Seq::empty(),
    }
}

pub fn get_value_text(entry: &Vec<(String, Json)>, key: &str) -> (r: String)
    ensures
        r@ == value_text(text::views(entry@), key@),
{
    match get(entry, key) {
        Some(value) => json_value_to_string(value),
        None => String::new(),
    }
}

/// The text in the first of two fields that is there.
pub open spec fn either_text(entry: Fields, first: Seq<char>, second: Seq<char>) -> Option<
    Seq<char>,
> {
    if json::field(entry, first) is Some {
        json::text_field(entry, first)
    } else {
        json::text_field(entry, second)
    }
}

pub fn get_either_text<'a>(entry: &'a Vec<(String, Json)>, first: &str, second: &str) -> (r: Option<
    &'a String,
>)
    ensures
        match r {
            Some(value) => either_text(text::views(entry@), first@, second@) == Some(value@),
            None => either_text(text::views(entry@), first@, second@) is None,
        },
{
    match get(entry, first) {
        Some(value) => value.as_text(),
        None => get_text(entry, second),
    }
}

/// A name with a value, placeholders normalized; nothing where the name is blank.
pub open spec fn clean_pair(key: Seq<char>, value: Seq<char>) -> Option<(Seq<char>, Seq<char>)> {
    if text::is_blank(key) {
        None
    } else {
        Some((placeholders::normalized(text::trim(key)), placeholders::normalized(text::trim(value))))
    }
}

pub fn make_pair(key: &str, value: &str) -> (r: Option<KeyValue>)
    ensures
        match r {
            Some(pair) => clean_pair(key@, value@) == Some(pair@),
            None => clean_pair(key@, value@) is None,
        },
{
    let key = trimmed(key);
    if key.as_str().is_empty() {
        return None;
    }
    Some(
        KeyValue {
            key: normalize_postman_placeholders(key.as_str()),
            value: normalize_postman_placeholders(trimmed(value).as_str()),
        },
    )
}

/// The pair that an entry of a list states.
pub open spec fn entry_pair(item: JsonTree) -> Option<(Seq<char>, Seq<char>)> {
    match json::as_record(item) {
        Some(entry) => if is_enabled(entry) {
            match either_text(entry, "key"@, "name"@) {
                Some(key) => clean_pair(key, value_text(entry, "value"@)),
                None => None,
            }
        } else {
            None
        },
        None => None,
    }
}

fn parse_entry(item: &Json) -> (r: Option<KeyValue>)
    ensures
        match r {
            Some(pair) => entry_pair(item@) == Some(pair@),
            None => entry_pair(item@) is None,
        },
{
    match item.as_record() {
        Some(entry) => {
            if !postman_field_enabled(entry) {
                return None;
            }
            match get_either_text(entry, "key", "name") {
                Some(key) => make_pair(key.as_str(), get_value_text(entry, "value").as_str()),
                None => None,
            }
        },
        None => None,
    }
}

/// The pair that a field of a record states.
pub open spec fn field_pair(field: (Seq<char>, JsonTree)) -> Option<(Seq<char>, Seq<char>)> {
    clean_pair(field.0, json::plain_text(field.1))
}

/// The pair that a line of text states: `key: value`, or `key=value`.
pub open spec fn line_pair(line: Seq<char>) -> Option<(Seq<char>, Seq<char>)> {
    let line = text::trim(line);
    match text::cut(line, ':') {
        Some((key, value)) => clean_pair(key, value),
        None => match text::cut(line, '=') {
            Some((key, value)) => clean_pair(key, value),
            None => None,
        },
    }
}

pub fn parse_header_like_line(line: &str) -> (r: Option<KeyValue>)
    ensures
        match r {
            Some(pair) => line_pair(line@) == Some(pair@),
            None => line_pair(line@) is None,
        },
{
    let line = trimmed(line);
    match split_once(line.as_str(), ':') {
        Some((key, value)) => make_pair(key.as_str(), value.as_str()),
        None => match split_once(line.as_str(), '=') {
            Some((key, value)) => make_pair(key.as_str(), value.as_str()),
            None => None,
        },
    }
}

/// The pairs that a value states: the entries of a list, the fields of a record, or the lines of
/// a text.
pub open spec fn stated_pairs(value: JsonTree) -> Pairs {
    match value {
        JsonTree::List(items) => items.filter_map(|item: JsonTree| entry_pair(item)),
        JsonTree::Record(fields) => fields.filter_map(
            |field: (Seq<char>, JsonTree)| field_pair(field),
        ),
        JsonTree::Text(content) => text::lines(content).filter_map(
            |line: Seq<char>| line_pair(line),
        ),
        _ => Seq::empty(),
    }
}

fn parse_entries(items: &Vec<Json>) -> (r: Vec<KeyValue>)
    ensures
        text::views(r@) == text::views(items@).filter_map(|item: JsonTree| entry_pair(item)),
{
    let mut r: Vec<KeyValue> = Vec::new();
    let ghost all = text::views(items@);
    let ghost f = |item: JsonTree| entry_pair(item);
    let mut i: usize = 0;
    assert(text::views(r@) =~= all.take(0).filter_map(f));
    while i < items.len()
        invariant
            i <= items@.len(),
            all == text::views(items@),
            f == (|item: JsonTree| entry_pair(item)),
            text::views(r@) == all.take(i as int).filter_map(f),
        decreases items@.len() - i,
    {
        proof {
            all.lemma_filter_map_take_succ(f, i as int);
        }
        if let Some(pair) = parse_entry(&items[i]) {
            proof {
                text::lemma_views_push(r@, pair);
            }
            r.push(pair);
        }
        i += 1;
    }
    assert(all.take(all.len() as int) =~= all);
    r
}

fn parse_fields(fields: &Vec<(String, Json)>) -> (r: Vec<KeyValue>)
    ensures
        text::views(r@) == text::views(fields@).filter_map(
            |field: (Seq<char>, JsonTree)| field_pair(field),
        ),
{
    let mut r: Vec<KeyValue> = Vec::new();
    let ghost all = text::views(fields@);
    let ghost f = |field: (Seq<char>, JsonTree)| field_pair(field);
    let mut i: usize = 0;
    assert(text::views(r@) =~= all.take(0).filter_map(f));
    while i < fields.len()
        invariant
            i <= fields@.len(),
            all == text::views(fields@),
            f == (|field: (Seq<char>, JsonTree)| field_pair(field)),
            text::views(r@) == all.take(i as int).filter_map(f),
        decreases fields@.len() - i,
    {
        proof {
            all.lemma_filter_map_take_succ(f, i as int);
        }
        let value = json_value_to_string(&fields[i].1);
        if let Some(pair) = make_pair(fields[i].0.as_str(), value.as_str()) {
            proof {
                text::lemma_views_push(r@, pair);
            }
            r.push(pair);
        }
        i += 1;
    }
    assert(all.take(all.len() as int) =~= all);
    r
}

fn parse_lines(content: &str) -> (r: Vec<KeyValue>)
    ensures
        text::views(r@) == text::lines(content@).filter_map(|line: Seq<char>| line_pair(line)),
{
    let lines = split_lines(content);
    let mut r: Vec<KeyValue> = Vec::new();
    let ghost all = text::views(lines@);
    let ghost f = |line: Seq<char>| line_pair(line);
    let mut i: usize = 0;
    assert(text::views(r@) =~= all.take(0).filter_map(f));
    while i < lines.len()
        invariant
            i <= lines@.len(),
            all == text::views(lines@),
            f == (|line: Seq<char>| line_pair(line)),
            text::views(r@) == all.take(i as int).filter_map(f),
        decreases lines@.len() - i,
    {
        proof {
            all.lemma_filter_map_take_succ(f, i as int);
        }
        if let Some(pair) = parse_header_like_line(lines[i].as_str()) {
            proof {
                text::lemma_views_push(r@, pair);
            }
            r.push(pair);
        }
        i += 1;
    }
    assert(all.take(all.len() as int) =~= all);
    r
}

pub fn parse_key_value_entries(value: &Json) -> (r: Vec<KeyValue>)
    ensures
        text::views(r@) == stated_pairs(value@),
{
    proof {
        json::lemma_tree(*value);
    }
    match value {
        Json::List(items) => parse_entries(items),
        Json::Record(fields) => parse_fields(fields),
        Json::Text(content) => parse_lines(content.as_str()),
        _ => {
            let none: Vec<KeyValue> = Vec::new();
            assert(text::views(none@) =~= Seq::empty());
            none
        },
    }
}

/// How a pair stands in a query or in a form: `key=value`, or the bare key where the value is
/// blank.
pub open spec fn pair_text(pair: (Seq<char>, Seq<char>)) -> Seq<char> {
    if text::is_blank(pair.1) {
        pair.0
    } else {
        pair.0 + "="@ + pair.1
    }
}

/// The pairs one after another.
pub open spec fn pairs_text(pairs: Pairs, separator: Seq<char>) -> Seq<char> {
    text::join(
        pairs.map_values(|pair: (Seq<char>, Seq<char>)| pair_text(pair)),
        separator,
    )
}

pub fn join_pairs(pairs: &Vec<KeyValue>, separator: &str) -> (r: String)
    ensures
        r@ == pairs_text(text::views(pairs@), separator@),
{
    let mut parts: Vec<String> = Vec::new();
    let ghost all = text::views(pairs@);
    let ghost f = |pair: (Seq<char>, Seq<char>)| pair_text(pair);
    let mut i: usize = 0;
    assert(text::views(parts@) =~= all.take(0).map_values(f));
    while i < pairs.len()
        invariant
            i <= pairs@.len(),
            all == text::views(pairs@),
            f == (|pair: (Seq<char>, Seq<char>)| pair_text(pair)),
            text::views(parts@) == all.take(i as int).map_values(f),
        decreases pairs@.len() - i,
    {
        proof {
            all.lemma_map_take_succ(f, i as int);
        }
        let part = if blank(pairs[i].value.as_str()) {
            pairs[i].key.clone()
        } else {
            concat3(pairs[i].key.as_str(), "=", pairs[i].value.as_str())
        };
        proof {
            text::lemma_views_push(parts@, part);
        }
        parts.push(part);
        i += 1;
    }
    assert(all.take(all.len() as int) =~= all);
    joined(&parts, separator)
}

// ---------------------------------------------------------------------------
// Authentication
// ---------------------------------------------------------------------------

/// What a list of bindings binds, the last one of a key counting.
pub open spec fn bound(bindings: Pairs) -> Map<Seq<char>, Seq<char>>
    decreases bindings.len(),
{
    if bindings.len() == 0 {
        Map::empty()
    } else {
        bound(bindings.drop_last()).insert(bindings.last().0, bindings.last().1)
    }
}

/// A setting under its name in lower case; nothing where the name is blank.
pub open spec fn setting(key: Seq<char>, value: Seq<char>) -> Option<(Seq<char>, Seq<char>)> {
    if text::is_blank(key) {
        None
    } else {
        Some((text::ascii_lower(text::trim(key)), value))
    }
}

/// The setting that an entry of a list states.
pub open spec fn entry_setting(item: JsonTree) -> Option<(Seq<char>, Seq<char>)> {
    match json::as_record(item) {
        Some(entry) => if is_enabled(entry) {
            match json::text_field(entry, "key"@) {
                Some(key) => setting(key, value_text(entry, "value"@)),
                None => None,
            }
        } else {
            None
        },
        None => None,
    }
}

/// The setting that a field of a record states.
pub open spec fn field_setting(field: (Seq<char>, JsonTree)) -> Option<(Seq<char>, Seq<char>)> {
    setting(field.0, json::plain_text(field.1))
}

/// The settings of a way to authenticate.
pub open spec fn auth_settings(auth: Fields, auth_type: Seq<char>) -> Map<Seq<char>, Seq<char>> {
    match json::field(auth, auth_type) {
        Some(JsonTree::List(items)) => bound(
            items.filter_map(|item: JsonTree| entry_setting(item)),
        ),
        Some(JsonTree::Record(fields)) => bound(
            fields.filter_map(|field: (Seq<char>, JsonTree)| field_setting(field)),
        ),
        _ => Map::empty(),
    }
}

proof fn lemma_bound_push(bindings: Pairs, binding: (Seq<char>, Seq<char>))
    ensures
        bound(bindings + seq![binding]) == bound(bindings).insert(binding.0, binding.1),
{
    assert((bindings + seq![binding]).drop_last() =~= bindings);
}

fn settings_of_entries(items: &Vec<Json>) -> (r: TextMap<String>)
    ensures
        r@ == bound(text::views(items@).filter_map(|item: JsonTree| entry_setting(item))),
{
    let mut r: TextMap<String> = TextMap::new();
    let ghost all = text::views(items@);
    let ghost f = |item: JsonTree| entry_setting(item);
    let mut i: usize = 0;
    assert(all.take(0).filter_map(f) =~= Seq::empty());
    while i < items.len()
        invariant
            i <= items@.len(),
            all == text::views(items@),
            f == (|item: JsonTree| entry_setting(item)),
            r@ == bound(all.take(i as int).filter_map(f)),
        decreases items@.len() - i,
    {
        proof {
            all.lemma_filter_map_take_succ(f, i as int);
            assert(all.take(i as int).filter_map(f) + Seq::empty() =~= all.take(
                i as int,
            ).filter_map(f));
        }
        if let Some(entry) = items[i].as_record() {
            if postman_field_enabled(entry) {
                if let Some(key) = get_text(entry, "key") {
                    let key = trimmed(key.as_str());
                    if !key.as_str().is_empty() {
                        let name = to_ascii_lower(key.as_str());
                        let value = get_value_text(entry, "value");
                        proof {
                            lemma_bound_push(all.take(i as int).filter_map(f), (name@, value@));
                        }
                        r.insert(name, value);
                    }
                }
            }
        }
        i += 1;
    }
    assert(all.take(all.len() as int) =~= all);
    r
}

fn settings_of_fields(fields: &Vec<(String, Json)>) -> (r: TextMap<String>)
    ensures
        r@ == bound(
            text::views(fields@).filter_map(
                |field: (Seq<char>, JsonTree)| field_setting(field),
            ),
        ),
{
    let mut r: TextMap<String> = TextMap::new();
    let ghost all = text::views(fields@);
    let ghost f = |field: (Seq<char>, JsonTree)| field_setting(field);
    let mut i: usize = 0;
    assert(all.take(0).filter_map(f) =~= Seq::empty());
    while i < fields.len()
        invariant
            i <= fields@.len(),
            all == text::views(fields@),
            f == (|field: (Seq<char>, JsonTree)| field_setting(field)),
            r@ == bound(all.take(i as int).filter_map(f)),
        decreases fields@.len() - i,
    {
        proof {
            all.lemma_filter_map_take_succ(f, i as int);
            assert(all.take(i as int).filter_map(f) + Seq::empty() =~= all.take(
                i as int,
            ).filter_map(f));
        }
        let key = trimmed(fields[i].0.as_str());
        if !key.as_str().is_empty() {
            let name = to_ascii_lower(key.as_str());
            let value = json_value_to_string(&fields[i].1);
            proof {
                lemma_bound_push(all.take(i as int).filter_map(f), (name@, value@));
            }
            r.insert(name, value);
        }
        i += 1;
    }
    assert(all.take(all.len() as int) =~= all);
    r
}

pub fn auth_fields_map(auth: &Vec<(String, Json)>, auth_type: &str) -> (r: TextMap<String>)
    ensures
        r@ == auth_settings(text::views(auth@), auth_type@),
{
    match get(auth, auth_type) {
        Some(container) => {
            proof {
                json::lemma_tree(*container);
            }
            match container {
                Json::List(items) => settings_of_entries(items),
                Json::Record(fields) => settings_of_fields(fields),
                _ => TextMap::new(),
            }
        },
        None => TextMap::new(),
    }
}

/// The trimmed value of a setting.
pub open spec fn trimmed_setting(
    settings: Map<Seq<char>, Seq<char>>,
    name: Seq<char>,
) -> Option<Seq<char>> {
    if settings.dom().contains(name) {
        Some(text::trim(settings[name]))
    } else {
        None
    }
}

fn get_setting(settings: &TextMap<String>, name: &str) -> (r: Option<String>)
    ensures
        text::opt(r) == trimmed_setting(settings@, name@),
{
    match settings.get(name) {
        Some(value) => Some(trimmed(value.as_str())),
        None => None,
    }
}

/// The trimmed value of the first of two settings that is there.
pub open spec fn either_setting(
    settings: Map<Seq<char>, Seq<char>>,
    first: Seq<char>,
    second: Seq<char>,
) -> Option<Seq<char>> {
    if settings.dom().contains(first) {
        trimmed_setting(settings, first)
    } else {
        trimmed_setting(settings, second)
    }
}

fn get_either_setting(settings: &TextMap<String>, first: &str, second: &str) -> (r: Option<String>)
    ensures
        text::opt(r) == either_setting(settings@, first@, second@),
{
    match get_setting(settings, first) {
        Some(value) => Some(value),
        None => get_setting(settings, second),
    }
}

/// The kind of authentication.
pub open spec fn auth_type(auth: Fields) -> Seq<char> {
    match json::text_field(auth, "type"@) {
        Some(name) => text::ascii_lower(text::trim(name)),
        None => Seq::empty(),
    }
}

fn get_auth_type(auth: &Vec<(String, Json)>) -> (r: String)
    ensures
        r@ == auth_type(text::views(auth@)),
{
    match get_text(auth, "type") {
        Some(name) => to_ascii_lower(trimmed(name.as_str()).as_str()),
        None => String::new(),
    }
}

/// An API key with its value, and whether it goes into the query.
pub open spec fn api_key(settings: Map<Seq<char>, Seq<char>>) -> Option<
    ((Seq<char>, Seq<char>), bool),
> {
    let key = trimmed_setting(settings, "key"@);
    let value = trimmed_setting(settings, "value"@);
    let in_query = match either_setting(settings, "in"@, "location"@) {
        Some(location) => text::ascii_lower(location) == "query"@,
        None => false,
    };
    if key is Some && key->0.len() > 0 && value is Some && value->0.len() > 0 {
        Some(((placeholders::normalized(key->0), placeholders::normalized(value->0)), in_query))
    } else {
        None
    }
}

fn get_api_key(settings: &TextMap<String>) -> (r: Option<(KeyValue, bool)>)
    ensures
        match r {
            Some(found) => api_key(settings@) == Some((found.0@, found.1)),
            None => api_key(settings@) is None,
        },
{
    let key = get_setting(settings, "key");
    let value = get_setting(settings, "value");
    let in_query = match get_either_setting(settings, "in", "location") {
        Some(location) => {
            let location = to_ascii_lower(location.as_str());
            same_text(location.as_str(), "query")
        },
        None => false,
    };
    match (key, value) {
        (Some(key), Some(value)) => if key.as_str().is_empty() || value.as_str().is_empty() {
            None
        } else {
            Some(
                (
                    KeyValue {
                        key: normalize_postman_placeholders(key.as_str()),
                        value: normalize_postman_placeholders(value.as_str()),
                    },
                    in_query,
                ),
            )
        },
        _ => None,
    }
}

/// The header that carries a token.
pub open spec fn bearer(token: Option<Seq<char>>) -> Pairs {
    if token is Some && token->0.len() > 0 {
        seq![("Authorization"@, "Bearer "@ + placeholders::normalized(token->0))]
    } else {
        Seq::empty()
    }
}

fn bearer_headers(token: Option<String>) -> (r: Vec<KeyValue>)
    ensures
        text::views(r@) == bearer(text::opt(token)),
{
    let mut r: Vec<KeyValue> = Vec::new();
    if let Some(token) = token {
        if !token.as_str().is_empty() {
            r.push(
                KeyValue {
                    key: "Authorization".to_owned(),
                    value: concat2(
                        "Bearer ",
                        normalize_postman_placeholders(token.as_str()).as_str(),
                    ),
                },
            );
        }
    }
    assert(text::views(r@) =~= bearer(text::opt(token)));
    r
}

/// The headers by which a request authenticates: a bearer token, or an API key that does not go
/// into the query.
pub open spec fn auth_headers(auth: JsonTree) -> Pairs {
    match json::as_record(auth) {
        None => Seq::empty(),
        Some(auth) => {
            let kind = auth_type(auth);
            let settings = auth_settings(auth, kind);
            if kind == "bearer"@ {
                bearer(either_setting(settings, "token"@, "value"@))
            } else if kind == "oauth2"@ {
                bearer(either_setting(settings, "accesstoken"@, "token"@))
            } else if kind == "apikey"@ {
                match api_key(settings) {
                    Some((pair, in_query)) => if in_query {
                        Seq::empty()
                    } else {
                        seq![pair]
                    },
                    None => Seq::empty(),
                }
            } else {
                Seq::empty()
            }
        },
    }
}

pub fn auth_headers_from_value(auth_value: &Json) -> (r: Vec<KeyValue>)
    ensures
        text::views(r@) == auth_headers(auth_value@),
{
    let none: Vec<KeyValue> = Vec::new();
    assert(text::views(none@) =~= Seq::empty());
    match auth_value.as_record() {
        None => none,
        Some(auth) => {
            let kind = get_auth_type(auth);
            let kind = kind.as_str();
            if same_text(kind, "bearer") {
                bearer_headers(get_either_setting(&auth_fields_map(auth, kind), "token", "value"))
            } else if same_text(kind, "oauth2") {
                bearer_headers(
                    get_either_setting(&auth_fields_map(auth, kind), "accesstoken", "token"),
                )
            } else if same_text(kind, "apikey") {
                match get_api_key(&auth_fields_map(auth, kind)) {
                    Some((pair, in_query)) => if in_query {
                        none
                    } else {
                        let r = vec![pair];
                        assert(text::views(r@) =~= seq![pair@]);
                        r
                    },
                    None => none,
                }
            } else {
                none
            }
        },
    }
}

/// The query parameters by which a request authenticates: an API key that goes into the query.
pub open spec fn auth_query(auth: JsonTree) -> Pairs {
    match json::as_record(auth) {
        None => Seq::empty(),
        Some(auth) => if auth_type(auth) == "apikey"@ {
            match api_key(auth_settings(auth, "apikey"@)) {
                Some((pair, in_query)) => if in_query {
                    seq![pair]
                } else {
                    Seq::empty()
                },
                None => Seq::empty(),
            }
        } else {
            Seq::empty()
        },
    }
}

pub fn auth_query_pairs_from_value(auth_value: &Json) -> (r: Vec<KeyValue>)
    ensures
        text::views(r@) == auth_query(auth_value@),
{
    let none: Vec<KeyValue> = Vec::new();
    assert(text::views(none@) =~= Seq::empty());
    match auth_value.as_record() {
        None => none,
        Some(auth) => {
            let kind = get_auth_type(auth);
            if !same_text(kind.as_str(), "apikey") {
                return none;
            }
            match get_api_key(&auth_fields_map(auth, "apikey")) {
                Some((pair, in_query)) => if in_query {
                    let r = vec![pair];
                    assert(text::views(r@) =~= seq![pair@]);
                    r
                } else {
                    none
                },
                None => none,
            }
        },
    }
}

/// An API key is sent once: in a header or in the query, never in both.
pub proof fn law_api_key_is_sent_once(auth: JsonTree)
    ensures
        auth_headers(auth).len() + auth_query(auth).len() <= 1,
{
    reveal_strlit("bearer");
    reveal_strlit("oauth2");
    reveal_strlit("apikey");
    if let Some(fields) = json::as_record(auth) {
        let kind = auth_type(fields);
        assert("bearer"@[0] == 'b' && "oauth2"@[0] == 'o' && "apikey"@[0] == 'a');
    }
}

// ---------------------------------------------------------------------------
// URLs
// ---------------------------------------------------------------------------

/// The parts of a host or path that stand in a list.
pub open spec fn listed_parts(items: Seq<JsonTree>) -> Seq<Seq<char>> {
    items.filter_map(
        |item: JsonTree|
            match json::as_text(item) {
                Some(part) => text::trimmed_content(part),
                None => None,
            },
    )
}

/// A host or path: a text, or a list of its parts.
pub open spec fn path_like(value: JsonTree) -> Option<Seq<char>> {
    match value {
        JsonTree::Text(path) => Some(path),
        JsonTree::List(items) => if listed_parts(items).len() == 0 {
            None
        } else {
            Some(text::join(listed_parts(items), "/"@))
        },
        _ => None,
    }
}

pub fn postman_path_like_value_to_string(value: &Json) -> (r: Option<String>)
    ensures
        text::opt(r) == path_like(value@),
{
    proof {
        json::lemma_tree(*value);
    }
    match value {
        Json::Text(path) => Some(path.clone()),
        Json::List(items) => {
            let mut parts: Vec<String> = Vec::new();
            let ghost all = text::views(items@);
            let ghost f = |item: JsonTree|
                match json::as_text(item) {
                    Some(part) => text::trimmed_content(part),
                    None => None,
                };
            let mut i: usize = 0;
            assert(text::views(parts@) =~= all.take(0).filter_map(f));
            while i < items.len()
                invariant
                    i <= items@.len(),
                    all == text::views(items@),
                    f == (|item: JsonTree|
                        match json::as_text(item) {
                            Some(part) => text::trimmed_content(part),
                            None => None,
                        }),
                    text::views(parts@) == all.take(i as int).filter_map(f),
                decreases items@.len() - i,
            {
                proof {
                    all.lemma_filter_map_take_succ(f, i as int);
                }
                if let Some(part) = items[i].as_text() {
                    if let Some(part) = non_empty_trimmed(part.as_str()) {
                        proof {
                            text::lemma_views_push(parts@, part);
                        }
                        parts.push(part);
                    }
                }
                i += 1;
            }
            assert(all.take(all.len() as int) =~= all);
            if parts.len() == 0 {
                None
            } else {
                Some(joined(&parts, "/"))
            }
        },
        _ => None,
    }
}

/// A URL made of its components.
pub open spec fn url_of(
    protocol: Option<Seq<char>>,
    host: Option<Seq<char>>,
    port: Option<Seq<char>>,
    path: Option<Seq<char>>,
) -> Option<Seq<char>> {
    let name = match host {
        Some(host) => folders::strip(text::trim(host), '/'),
        None => Seq::empty(),
    };
    let way = match path {
        Some(path) => folders::strip(path, '/'),
        None => Seq::empty(),
    };
    if name.len() == 0 {
        None
    } else {
        Some(
            (match protocol {
                Some(protocol) => protocol,
                None => "https"@,
            }) + "://"@ + name + (match port {
                Some(port) => ":"@ + port,
                None => Seq::empty(),
            }) + (if way.len() == 0 {
                Seq::empty()
            } else {
                "/"@ + way
            }),
        )
    }
}

pub fn build_url(
    protocol: Option<String>,
    host: Option<String>,
    port: Option<String>,
    path: Option<String>,
) -> (r: Option<String>)
    ensures
        text::opt(r) == url_of(
            text::opt(protocol),
            text::opt(host),
            text::opt(port),
            text::opt(path),
        ),
{
    let name = match &host {
        Some(host) => stripped(trimmed(host.as_str()).as_str(), '/'),
        None => String::new(),
    };
    let way = match &path {
        Some(path) => stripped(path.as_str(), '/'),
        None => String::new(),
    };
    if name.as_str().is_empty() {
        return None;
    }
    let mut url = match &protocol {
        Some(protocol) => protocol.clone(),
        None => "https".to_owned(),
    };
    url.append("://");
    url.append(name.as_str());
    let ghost start = url@;
    let tail = match &port {
        Some(port) => concat2(":", port.as_str()),
        None => String::new(),
    };
    url.append(tail.as_str());
    if !way.as_str().is_empty() {
        url.append(concat2("/", way.as_str()).as_str());
    } else {
        assert(url@ + Seq::<char>::empty() =~= url@);
    }
    Some(url)
}

/// The URL that the components in a record make.
pub open spec fn component_url(url: Fields) -> Option<Seq<char>> {
    url_of(
        json::content_field(url, "protocol"@),
        match json::field(url, "host"@) {
            Some(host) => path_like(host),
            None => None,
        },
        json::content_field(url, "port"@),
        match json::field(url, "path"@) {
            Some(path) => path_like(path),
            None => None,
        },
    )
}

pub fn build_url_from_components(url_object: &Vec<(String, Json)>) -> (r: Option<String>)
    ensures
        text::opt(r) == component_url(text::views(url_object@)),
{
    let host = match get(url_object, "host") {
        Some(host) => postman_path_like_value_to_string(host),
        None => None,
    };
    let path = match get(url_object, "path") {
        Some(path) => postman_path_like_value_to_string(path),
        None => None,
    };
    build_url(
        get_content(url_object, "protocol"),
        host,
        get_content(url_object, "port"),
        path,
    )
}

/// How a pair counts when pairs are told apart.
pub open spec fn pair_signature(pair: (Seq<char>, Seq<char>)) -> Seq<char> {
    text::trim(pair.0) + "\u{1f}"@ + text::trim(pair.1)
}

/// Whether a pair that counts the same is among the pairs.
pub open spec fn has_pair(pairs: Pairs, signature: Seq<char>) -> bool {
    exists|i: int| 0 <= i < pairs.len() && pair_signature(#[trigger] pairs[i]) == signature
}

/// The pairs, and after them those of the others with a name that are not yet among them.
pub open spec fn with_new_pairs(pairs: Pairs, others: Pairs) -> Pairs
    decreases others.len(),
{
    if others.len() == 0 {
        pairs
    } else {
        let rest = with_new_pairs(pairs, others.drop_last());
        let pair = others.last();
        if text::is_blank(pair.0) || has_pair(rest, pair_signature(pair)) {
            rest
        } else {
            rest.push(pair)
        }
    }
}

fn knows_pair(pairs: &Vec<KeyValue>, signature: &str) -> (r: bool)
    ensures
        r == has_pair(text::views(pairs@), signature@),
{
    let ghost all = text::views(pairs@);
    let mut i: usize = 0;
    while i < pairs.len()
        invariant
            i <= pairs@.len(),
            all == text::views(pairs@),
            forall|j: int| 0 <= j < i ==> pair_signature(#[trigger] all[j]) != signature@,
        decreases pairs@.len() - i,
    {
        let known = concat3(
            trimmed(pairs[i].key.as_str()).as_str(),
            "\u{1f}",
            trimmed(pairs[i].value.as_str()).as_str(),
        );
        if same_text(known.as_str(), signature) {
            assert(pair_signature(all[i as int]) == signature@);
            return true;
        }
        i += 1;
    }
    false
}

fn add_new_pairs(pairs: &mut Vec<KeyValue>, others: Vec<KeyValue>)
    ensures
        text::views(final(pairs)@) == with_new_pairs(
            text::views(old(pairs)@),
            text::views(others@),
        ),
{
    let ghost start = text::views(pairs@);
    let ghost all = text::views(others@);
    let mut i: usize = 0;
    while i < others.len()
        invariant
            i <= others@.len(),
            all == text::views(others@),
            text::views(pairs@) == with_new_pairs(start, all.take(i as int)),
        decreases others@.len() - i,
    {
        proof {
            assert(all.take(i + 1).drop_last() =~= all.take(i as int));
        }
        let key = trimmed(others[i].key.as_str());
        if !key.as_str().is_empty() {
            let signature = concat3(
                key.as_str(),
                "\u{1f}",
                trimmed(others[i].value.as_str()).as_str(),
            );
            if !knows_pair(pairs, signature.as_str()) {
                let pair = others[i].clone();
                proof {
                    text::lemma_views_push(pairs@, pair);
                }
                pairs.push(pair);
            }
        }
        i += 1;
    }
    assert(all.take(all.len() as int) =~= all);
}

/// The pairs that the value in a field states.
pub open spec fn field_pairs(fields: Fields, key: Seq<char>) -> Pairs {
    match json::field(fields, key) {
        Some(value) => stated_pairs(value),
        None => Seq::empty(),
    }
}

fn get_field_pairs(fields: &Vec<(String, Json)>, key: &str) -> (r: Vec<KeyValue>)
    ensures
        text::views(r@) == field_pairs(text::views(fields@), key@),
{
    match get(fields, key) {
        Some(value) => parse_key_value_entries(value),
        None => {
            let none: Vec<KeyValue> = Vec::new();
            assert(text::views(none@) =~= Seq::empty());
            none
        },
    }
}

/// The query parameters of a request, each once.
pub open spec fn query_pairs(data: Fields) -> Pairs {
    let own = with_new_pairs(Seq::empty(), field_pairs(data, "queryParams"@));
    match json::record_field(data, "url"@) {
        Some(url) => with_new_pairs(
            with_new_pairs(own, field_pairs(url, "queryParams"@)),
            field_pairs(url, "query"@),
        ),
        None => own,
    }
}

pub fn request_query_pairs_from_data(data: &Vec<(String, Json)>) -> (r: Vec<KeyValue>)
    ensures
        text::views(r@) == query_pairs(text::views(data@)),
{
    let mut r: Vec<KeyValue> = Vec::new();
    assert(text::views(r@) =~= Seq::empty());
    add_new_pairs(&mut r, get_field_pairs(data, "queryParams"));
    if let Some(url) = get_record(data, "url") {
        add_new_pairs(&mut r, get_field_pairs(url, "queryParams"));
        add_new_pairs(&mut r, get_field_pairs(url, "query"));
    }
    r
}

/// The URL with the pairs as its query, where it has none.
pub open spec fn with_query(url: Seq<char>, pairs: Pairs) -> Seq<char> {
    let query = pairs_text(pairs, "&"@);
    if url.contains('?') || query.len() == 0 {
        url
    } else {
        url + "?"@ + query
    }
}

pub fn add_query(url: String, pairs: &Vec<KeyValue>) -> (r: String)
    ensures
        r@ == with_query(url@, text::views(pairs@)),
{
    if contains_char(url.as_str(), '?') {
        return url;
    }
    let query = join_pairs(pairs, "&");
    if query.as_str().is_empty() {
        url
    } else {
        concat3(url.as_str(), "?", query.as_str())
    }
}

/// The query parameters by which the request in a record authenticates.
pub open spec fn auth_field_query(data: Fields) -> Pairs {
    match json::field(data, "auth"@) {
        Some(auth) => auth_query(auth),
        None => Seq::empty(),
    }
}

/// The URL of a request, with its query.
pub open spec fn data_url(data: Fields) -> Option<Seq<char>> {
    let base = match json::field(data, "url"@) {
        Some(JsonTree::Text(url)) => Some(text::trim(url)),
        Some(JsonTree::Record(url)) => match json::content_field(url, "raw"@) {
            Some(raw) => Some(raw),
            None => component_url(url),
        },
        _ => None,
    };
    match base {
        Some(url) => Some(with_query(url, query_pairs(data) + auth_field_query(data))),
        None => None,
    }
}

pub fn request_url_from_data(data: &Vec<(String, Json)>) -> (r: Option<String>)
    ensures
        text::opt(r) == data_url(text::views(data@)),
{
    let base = match get(data, "url") {
        Some(value) => {
            proof {
                json::lemma_tree(*value);
            }
            match value {
                Json::Text(url) => Some(trimmed(url.as_str())),
                Json::Record(url) => match get_content(url, "raw") {
                    Some(raw) => Some(raw),
                    None => build_url_from_components(url),
                },
                _ => None,
            }
        },
        None => None,
    };
    match base {
        Some(url) => {
            let mut pairs = request_query_pairs_from_data(data);
            let ghost own = text::views(pairs@);
            let mut auth_pairs = match get(data, "auth") {
                Some(auth) => auth_query_pairs_from_value(auth),
                None => Vec::new(),
            };
            let ghost added = text::views(auth_pairs@);
            assert(added =~= auth_field_query(text::views(data@)));
            pairs.append(&mut auth_pairs);
            assert(text::views(pairs@) =~= own + added);
            Some(add_query(url, &pairs))
        },
        None => None,
    }
}

// ---------------------------------------------------------------------------
// Headers
// ---------------------------------------------------------------------------

/// The headers of a request: those that it states, and those by which it authenticates.
pub open spec fn data_headers(data: Fields) -> Pairs {
    let stated = if json::field(data, "headerData"@) is Some {
        field_pairs(data, "headerData"@)
    } else if json::field(data, "headers"@) is Some {
        field_pairs(data, "headers"@)
    } else {
        field_pairs(data, "header"@)
    };
    match json::field(data, "auth"@) {
        Some(auth) => merge::merged_headers(stated, auth_headers(auth)),
        None => stated,
    }
}

pub fn request_headers_from_data(data: &Vec<(String, Json)>) -> (r: Vec<KeyValue>)
    ensures
        text::views(r@) == data_headers(text::views(data@)),
{
    let mut headers = match get(data, "headerData") {
        Some(value) => parse_key_value_entries(value),
        None => match get(data, "headers") {
            Some(value) => parse_key_value_entries(value),
            None => get_field_pairs(data, "header"),
        },
    };
    if let Some(auth) = get(data, "auth") {
        merge_header_pairs(&mut headers, auth_headers_from_value(auth));
    }
    headers
}

// ---------------------------------------------------------------------------
// Bodies
// ---------------------------------------------------------------------------

/// A GraphQL query with its variables.
pub open spec fn graphql_text(query: Seq<char>, variables: Option<JsonTree>) -> Seq<char> {
    placeholders::normalized(query) + (match variables {
        Some(variables) => if variables is Null {
            Seq::empty()
        } else {
            "\n\n"@ + ("variables: "@ + placeholders::normalized(
                json::pretty_text(json::in_order(variables)),
            ))
        },
        None => Seq::empty(),
    })
}

/// The text of a body in a mode.
pub open spec fn payload_text(value: JsonTree, mode: Seq<char>) -> Seq<char> {
    let mode = text::ascii_lower(text::trim(mode));
    let fields = match json::as_record(value) {
        Some(fields) => fields,
        None => Seq::empty(),
    };
    let query = json::content_field(fields, "query"@);
    let source = json::content_field(fields, "src"@);
    match value {
        JsonTree::Null => Seq::empty(),
        JsonTree::Bool(_) => json::plain_text(value),
        JsonTree::Number(_) => json::plain_text(value),
        JsonTree::Text(content) => placeholders::normalized(content),
        _ => if mode == "urlencoded"@ && stated_pairs(value).len() > 0 {
            pairs_text(stated_pairs(value), "&"@)
        } else if mode == "formdata"@ && stated_pairs(value).len() > 0 {
            pairs_text(stated_pairs(value), "\n"@)
        } else if mode == "graphql"@ && query is Some {
            graphql_text(query->0, json::field(fields, "variables"@))
        } else if (mode == "file"@ || mode == "binary"@) && source is Some {
            "@"@ + placeholders::normalized(source->0)
        } else {
            placeholders::normalized(json::pretty_text(json::in_order(value)))
        },
    }
}

fn render_graphql(query: &str, variables: Option<&Json>) -> (r: String)
    ensures
        r@ == graphql_text(
            query@,
            match variables {
                Some(variables) => Some(variables@),
                None => None,
            },
        ),
{
    let query = normalize_postman_placeholders(query);
    let tail = match variables {
        Some(Json::Null) => String::new(),
        Some(variables) => concat3(
            "\n\n",
            "variables: ",
            normalize_postman_placeholders(json_pretty(variables).as_str()).as_str(),
        ),
        None => String::new(),
    };
    proof {
        if let Some(variables) = variables {
            let rest = placeholders::normalized(json::pretty_text(json::in_order(variables@)));
            assert("\n\n"@ + "variables: "@ + rest =~= "\n\n"@ + ("variables: "@ + rest));
        }
    }
    query.concat(tail.as_str())
}

fn render_complex_payload(value: &Json, mode: &str) -> (r: String)
    requires
        value@ is List || value@ is Record,
    ensures
        r@ == payload_text(value@, mode@),
{
    let name = to_ascii_lower(trimmed(mode).as_str());
    let name = name.as_str();
    proof {
        reveal_strlit("urlencoded");
        reveal_strlit("formdata");
        reveal_strlit("graphql");
        reveal_strlit("file");
        reveal_strlit("binary");
        assert("urlencoded"@[0] == 'u' && "formdata"@[1] == 'o' && "graphql"@[0] == 'g'
            && "file"@[1] == 'i' && "binary"@[0] == 'b' && "formdata"@[0] == 'f' && "file"@[0]
            == 'f' && "urlencoded"@[1] == 'r');
    }
    if same_text(name, "urlencoded") || same_text(name, "formdata") {
        let pairs = parse_key_value_entries(value);
        if pairs.len() > 0 {
            let separator = if same_text(name, "urlencoded") {
                "&"
            } else {
                "\n"
            };
            return join_pairs(&pairs, separator);
        }
    }
    if same_text(name, "graphql") {
        if let Some(fields) = value.as_record() {
            if let Some(query) = get_content(fields, "query") {
                return render_graphql(query.as_str(), get(fields, "variables"));
            }
        }
    }
    if same_text(name, "file") || same_text(name, "binary") {
        if let Some(fields) = value.as_record() {
            if let Some(source) = get_content(fields, "src") {
                return concat2("@", normalize_postman_placeholders(source.as_str()).as_str());
            }
        }
    }
    normalize_postman_placeholders(json_pretty(value).as_str())
}

pub fn render_postman_body_payload(value: &Json, mode: &str) -> (r: String)
    ensures
        r@ == payload_text(value@, mode@),
{
    match value {
        Json::Null => String::new(),
        Json::Bool(_) => json_value_to_string(value),
        Json::Number(_) => json_value_to_string(value),
        Json::Text(content) => normalize_postman_placeholders(content.as_str()),
        Json::List(_) => render_complex_payload(value, mode),
        Json::Record(_) => render_complex_payload(value, mode),
    }
}

/// The text of the body in the first of the keys whose text is not blank.
pub open spec fn first_payload(body: Fields, mode: Option<Seq<char>>, keys: Seq<Seq<char>>) -> Seq<
    char,
>
    decreases keys.len(),
{
    if keys.len() == 0 {
        Seq::empty()
    } else {
        let content = match json::field(body, keys[0]) {
            Some(payload) => payload_text(
                payload,
                match mode {
                    Some(mode) => mode,
                    None => keys[0],
                },
            ),
            None => Seq::empty(),
        };
        if !text::is_blank(content) {
            content
        } else {
            first_payload(body, mode, keys.drop_first())
        }
    }
}

/// The places of a body, in the order in which they are tried.
pub open spec fn payload_keys() -> Seq<Seq<char>> {
    seq!["urlencoded"@, "formdata"@, "graphql"@, "file"@]
}

fn render_first_payload(body: &Vec<(String, Json)>, mode: Option<String>) -> (r: String)
    ensures
        r@ == first_payload(text::views(body@), text::opt(mode), payload_keys()),
{
    let keys: Vec<&str> = vec!["urlencoded", "formdata", "graphql", "file"];
    let ghost all = text::views(keys@);
    let mut i: usize = 0;
    assert(all =~= payload_keys());
    assert(all.skip(0) =~= all);
    while i < keys.len()
        invariant
            i <= keys@.len(),
            all == text::views(keys@),
            all == payload_keys(),
            first_payload(text::views(body@), text::opt(mode), payload_keys()) == first_payload(
                text::views(body@),
                text::opt(mode),
                all.skip(i as int),
            ),
        decreases keys@.len() - i,
    {
        proof {
            assert(all.skip(i as int)[0] == keys@[i as int]@);
            assert(all.skip(i as int).drop_first() =~= all.skip(i + 1));
            assert(text::trim(Seq::<char>::empty()).len() == 0);
        }
        if let Some(payload) = get(body, keys[i]) {
            let content = match &mode {
                Some(mode) => render_postman_body_payload(payload, mode.as_str()),
                None => render_postman_body_payload(payload, keys[i]),
            };
            if !blank(content.as_str()) {
                return content;
            }
        }
        i += 1;
    }
    String::new()
}

/// A mode under its name in lower case.
pub open spec fn mode_field(fields: Fields, key: Seq<char>) -> Option<Seq<char>> {
    match json::text_field(fields, key) {
        Some(mode) => Some(text::ascii_lower(text::trim(mode))),
        None => None,
    }
}

fn get_mode(fields: &Vec<(String, Json)>, key: &str) -> (r: Option<String>)
    ensures
        text::opt(r) == mode_field(text::views(fields@), key@),
{
    match get_text(fields, key) {
        Some(mode) => Some(to_ascii_lower(trimmed(mode.as_str()).as_str())),
        None => None,
    }
}

/// The body of a request: its raw text where that is not blank, else its data in the data mode,
/// else the first of the places of a body that says anything.
pub open spec fn data_body(data: Fields) -> Seq<char> {
    let raw = match json::text_field(data, "rawModeData"@) {
        Some(raw) => raw,
        None => Seq::empty(),
    };
    let body = json::record_field(data, "body"@);
    let body_raw = match body {
        Some(body) => json::content_field(body, "raw"@),
        None => None,
    };
    let payload = match json::field(data, "data"@) {
        Some(payload) => payload_text(
            payload,
            match mode_field(data, "dataMode"@) {
                Some(mode) => mode,
                None => Seq::empty(),
            },
        ),
        None => Seq::empty(),
    };
    if !text::is_blank(raw) {
        placeholders::normalized(raw)
    } else if body_raw is Some {
        placeholders::normalized(body_raw->0)
    } else if !text::is_blank(payload) {
        payload
    } else {
        match body {
            Some(body) => first_payload(body, mode_field(body, "mode"@), payload_keys()),
            None => Seq::empty(),
        }
    }
}

pub fn request_body_from_data(data: &Vec<(String, Json)>) -> (r: String)
    ensures
        r@ == data_body(text::views(data@)),
{
    assert(text::trim(Seq::<char>::empty()).len() == 0);
    if let Some(raw) = get_text(data, "rawModeData") {
        if !blank(raw.as_str()) {
            return normalize_postman_placeholders(raw.as_str());
        }
    }
    let body = get_record(data, "body");
    if let Some(body) = body {
        if let Some(raw) = get_content(body, "raw") {
            return normalize_postman_placeholders(raw.as_str());
        }
    }
    if let Some(payload) = get(data, "data") {
        let mode = match get_mode(data, "dataMode") {
            Some(mode) => mode,
            None => String::new(),
        };
        let content = render_postman_body_payload(payload, mode.as_str());
        if !blank(content.as_str()) {
            return content;
        }
    }
    match body {
        Some(body) => render_first_payload(body, get_mode(body, "mode")),
        None => String::new(),
    }
}

/// Whether a field holds anything but null.
pub open spec fn is_given(fields: Fields, key: Seq<char>) -> bool {
    match json::field(fields, key) {
        Some(value) => !(value is Null),
        None => false,
    }
}

fn given(fields: &Vec<(String, Json)>, key: &str) -> (r: bool)
    ensures
        r == is_given(text::views(fields@), key@),
{
    match get(fields, key) {
        Some(Json::Null) => false,
        Some(_) => true,
        None => false,
    }
}

/// The body mode of a request: the one that it states, else the one of the first place of a body
/// that holds anything.
pub open spec fn data_body_mode(data: Fields) -> Seq<char> {
    let body = json::record_field(data, "body"@);
    let stated = json::text_field(data, "dataMode"@);
    let raw = if is_given(data, "rawModeData"@) {
        "raw"@
    } else {
        "none"@
    };
    if stated is Some {
        request_body::body_mode(stated->0)
    } else {
        match body {
            Some(body) => match json::text_field(body, "mode"@) {
                Some(mode) => request_body::body_mode(mode),
                None => if is_given(body, "urlencoded"@) {
                    "urlencoded"@
                } else if is_given(body, "formdata"@) {
                    "form-data"@
                } else if is_given(body, "file"@) {
                    "binary"@
                } else if is_given(body, "raw"@) {
                    "raw"@
                } else {
                    raw
                },
            },
            None => raw,
        }
    }
}

pub fn request_body_mode_from_data(data: &Vec<(String, Json)>) -> (r: String)
    ensures
        r@ == data_body_mode(text::views(data@)),
{
    if let Some(mode) = get_text(data, "dataMode") {
        return normalize_body_mode_owned(mode.as_str());
    }
    if let Some(body) = get_record(data, "body") {
        if let Some(mode) = get_text(body, "mode") {
            return normalize_body_mode_owned(mode.as_str());
        }
        if given(body, "urlencoded") {
            return "urlencoded".to_owned();
        }
        if given(body, "formdata") {
            return "form-data".to_owned();
        }
        if given(body, "file") {
            return "binary".to_owned();
        }
        if given(body, "raw") {
            return "raw".to_owned();
        }
    }
    if given(data, "rawModeData") {
        return "raw".to_owned();
    }
    "none".to_owned()
}

// ---------------------------------------------------------------------------
// Endpoints
// ---------------------------------------------------------------------------

/// The endpoint without its id.
pub open spec fn anonymous(endpoint: EndpointView) -> EndpointView {
    EndpointView { id: Seq::empty(), ..endpoint }
}

/// Whether the endpoint is the anonymous one under a fresh id.
pub open spec fn is_fresh(endpoint: EndpointView, wanted: EndpointView) -> bool {
    anonymous(endpoint) == wanted && defaults::is_id(endpoint.id, "ep"@)
}

/// The method in upper case; `GET` where there is none.
pub open spec fn imported_method(method: Option<Seq<char>>) -> Seq<char> {
    match method {
        Some(method) => {
            let name = text::unicode_upper(text::trim(method));
            if name.len() == 0 {
                "GET"@
            } else {
                name
            }
        },
        None => "GET"@,
    }
}

pub fn import_method(method: Option<&String>) -> (r: String)
    ensures
        r@ == imported_method(
            match method {
                Some(method) => Some(method@),
                None => None,
            },
        ),
{
    match method {
        Some(method) => {
            let name = to_upper(trimmed(method.as_str()).as_str());
            if name.as_str().is_empty() {
                "GET".to_owned()
            } else {
                name
            }
        },
        None => "GET".to_owned(),
    }
}

/// The text, or nothing.
pub open spec fn or_empty(value: Option<Seq<char>>) -> Seq<char> {
    match value {
        Some(value) => value,
        None => Seq::empty(),
    }
}

pub fn text_or_empty(value: Option<String>) -> (r: String)
    ensures
        r@ == or_empty(text::opt(value)),
{
    match value {
        Some(value) => value,
        None => String::new(),
    }
}

/// The text, or another one.
pub open spec fn or_else(value: Option<Seq<char>>, other: Seq<char>) -> Seq<char> {
    match value {
        Some(value) => value,
        None => other,
    }
}

pub fn text_or(value: Option<String>, other: &str) -> (r: String)
    ensures
        r@ == or_else(text::opt(value), other@),
{
    match value {
        Some(value) => value,
        None => other.to_owned(),
    }
}

// ---------------------------------------------------------------------------
// Laws
// ---------------------------------------------------------------------------

/// Whether an item of a list is an entry in use that states a name and a value as texts.
pub open spec fn is_entry_of(item: JsonTree, pair: (Seq<char>, Seq<char>)) -> bool {
    item matches JsonTree::Record(entry) && {
        &&& json::field(entry, "key"@) == Some(JsonTree::Text(pair.0))
        &&& json::field(entry, "value"@) == Some(JsonTree::Text(pair.1))
        &&& json::field(entry, "disabled"@) is None
        &&& json::field(entry, "enabled"@) is None
        &&& !text::is_blank(pair.0)
    }
}

/// Whether the items of a list are entries that state the pairs, one after the other.
pub open spec fn are_entries_of(items: Seq<JsonTree>, pairs: Pairs) -> bool {
    &&& items.len() == pairs.len()
    &&& forall|i: int| 0 <= i < pairs.len() ==> is_entry_of(items[i], #[trigger] pairs[i])
}

/// The pairs without surrounding white space and with their placeholders converted.
pub open spec fn converted(pairs: Pairs) -> Pairs {
    pairs.map_values(
        |pair: (Seq<char>, Seq<char>)|
            (
                placeholders::normalized(text::trim(pair.0)),
                placeholders::normalized(text::trim(pair.1)),
            ),
    )
}

/// Whether the converted pairs can be written into a body and read back.
pub open spec fn are_plain(pairs: Pairs) -> bool {
    forall|i: int|
        0 <= i < pairs.len() ==> request_body::is_plain_field(#[trigger] converted(pairs)[i])
}

/// A list of entries states its names and values, all of them and in order.
pub proof fn law_entries_state_their_pairs(items: Seq<JsonTree>, pairs: Pairs)
    requires
        are_entries_of(items, pairs),
    ensures
        stated_pairs(JsonTree::List(items)) == converted(pairs),
{
    let f = |item: JsonTree| entry_pair(item);
    assert forall|i: int| 0 <= i < items.len() implies f(#[trigger] items[i]) == Some(
        converted(pairs)[i],
    ) by {
        assert(is_entry_of(items[i], pairs[i]));
    }
    text::lemma_filter_map_of_all(items, f);
    assert(items.filter_map(f) =~= converted(pairs));
}

/// An entry that is switched off states nothing; the others are not affected.
pub proof fn law_unused_entries_state_nothing(
    before: Seq<JsonTree>,
    entry: Fields,
    after: Seq<JsonTree>,
)
    requires
        json::field(entry, "disabled"@) == Some(JsonTree::Bool(true)) || json::field(
            entry,
            "enabled"@,
        ) == Some(JsonTree::Bool(false)),
    ensures
        stated_pairs(JsonTree::List(before + seq![JsonTree::Record(entry)] + after))
            == stated_pairs(JsonTree::List(before)) + stated_pairs(JsonTree::List(after)),
{
    let f = |item: JsonTree| entry_pair(item);
    let own = seq![JsonTree::Record(entry)];
    text::lemma_filter_map_in_turn(before + own, after, f);
    text::lemma_filter_map_in_turn(before, own, f);
    Seq::lemma_filter_map_singleton(JsonTree::Record(entry), f);
    assert(before.filter_map(f) + Seq::<(Seq<char>, Seq<char>)>::empty() =~= before.filter_map(f));
}

/// A record of texts states its keys with their values, in order.
pub proof fn law_record_states_its_fields(fields: Fields, pairs: Pairs)
    requires
        fields.len() == pairs.len(),
        forall|i: int|
            0 <= i < pairs.len() ==> fields[i] == (
                (#[trigger] pairs[i]).0,
                JsonTree::Text(pairs[i].1),
            ) && !text::is_blank(pairs[i].0),
    ensures
        stated_pairs(JsonTree::Record(fields)) == converted(pairs),
{
    let f = |field: (Seq<char>, JsonTree)| field_pair(field);
    assert forall|i: int| 0 <= i < fields.len() implies f(#[trigger] fields[i]) == Some(
        converted(pairs)[i],
    ) by {
        assert(fields[i] == (pairs[i].0, JsonTree::Text(pairs[i].1)));
    }
    text::lemma_filter_map_of_all(fields, f);
    assert(fields.filter_map(f) =~= converted(pairs));
}

/// A line states a name and a value with a colon between them, the first one counting.
pub proof fn law_line_states_a_pair(key: Seq<char>, value: Seq<char>)
    requires
        key.len() > 0,
        text::trim(key) == key,
        !key.contains(':'),
    ensures
        line_pair(key + ": "@ + value) == Some(
            (placeholders::normalized(key), placeholders::normalized(text::trim(value))),
        ),
{
    reveal_strlit(": ");
    let line = key + ": "@ + value;
    text::lemma_trimmed_ends(key);
    // What trimming leaves begins with the key and the colon.
    let rest = ": "@ + value;
    assert(line[0] == key[0]);
    assert(text::trim_start(line) == line);
    lemma_trim_end_keeps(key + seq![':'], seq![' '] + value);
    assert(line =~= key + seq![':'] + (seq![' '] + value));
    let kept = text::trim(line);
    let tail = text::trim_end(seq![' '] + value);
    assert(kept == key + seq![':'] + tail);
    assert forall|j: int| 0 <= j < key.len() implies kept[j] != ':' by {
        assert(key.contains(key[j]));
    }
    text::lemma_first_of(kept, ':', ':', key.len() as int);
    assert(kept.take(key.len() as int) =~= key);
    assert(kept.skip(key.len() as int + 1) =~= tail);
    lemma_trim_of_padded(value);
}

proof fn lemma_trim_end_keeps(head: Seq<char>, tail: Seq<char>)
    requires
        head.len() > 0,
        !text::is_whitespace(head.last()),
    ensures
        text::trim_end(head + tail) == head + text::trim_end(tail),
    decreases tail.len(),
{
    let whole = head + tail;
    if tail.len() == 0 {
        assert(whole =~= head);
        assert(head + text::trim_end(tail) =~= head);
    } else if text::is_whitespace(tail.last()) {
        lemma_trim_end_keeps(head, tail.drop_last());
        assert(whole.drop_last() =~= head + tail.drop_last());
        assert(whole.last() == tail.last());
    } else {
        assert(whole.last() == tail.last());
    }
}

proof fn lemma_trim_of_padded(value: Seq<char>)
    ensures
        text::trim(text::trim_end(seq![' '] + value)) == text::trim(value),
{
    let padded = seq![' '] + value;
    assert(padded.drop_first() =~= value);
    if text::is_blank(value) {
        lemma_blank_is_white(value);
        lemma_white_is_blank(padded);
        lemma_trim_end_of_white(padded);
    } else {
        // Both ends are taken off, whichever goes first.
        lemma_trim_order(padded);
    }
}

proof fn lemma_blank_is_white(s: Seq<char>)
    requires
        text::is_blank(s),
    ensures
        forall|i: int| 0 <= i < s.len() ==> text::is_whitespace(#[trigger] s[i]),
    decreases s.len(),
{
    if s.len() > 0 {
        if text::is_whitespace(s[0]) {
            let rest = s.drop_first();
            lemma_blank_is_white(rest);
            assert forall|i: int| 0 <= i < s.len() implies text::is_whitespace(#[trigger] s[i]) by {
                if i > 0 {
                    assert(s[i] == rest[i - 1]);
                }
            }
        } else {
            lemma_trim_end_keeps(seq![s[0]], s.drop_first());
            assert(seq![s[0]] + s.drop_first() =~= s);
        }
    }
}

proof fn lemma_white_is_blank(s: Seq<char>)
    requires
        forall|i: int| 0 <= i < s.len() - 1 ==> text::is_whitespace(#[trigger] s[i + 1]),
        s.len() > 0 ==> text::is_whitespace(s[0]),
    ensures
        forall|i: int| 0 <= i < s.len() ==> text::is_whitespace(#[trigger] s[i]),
{
    assert forall|i: int| 0 <= i < s.len() implies text::is_whitespace(#[trigger] s[i]) by {
        if i > 0 {
            assert(text::is_whitespace(s[(i - 1) + 1]));
        }
    }
}

proof fn lemma_trim_end_of_white(s: Seq<char>)
    requires
        forall|i: int| 0 <= i < s.len() ==> text::is_whitespace(#[trigger] s[i]),
    ensures
        text::trim_end(s).len() == 0,
        text::trim(s).len() == 0,
        text::trim(text::trim_end(s)) == text::trim(s),
    decreases s.len(),
{
    if s.len() > 0 {
        let rest = s.drop_last();
        assert(text::is_whitespace(s[s.len() - 1]));
        assert forall|i: int| 0 <= i < rest.len() implies text::is_whitespace(
            #[trigger] rest[i],
        ) by {
            assert(rest[i] == s[i]);
        }
        lemma_trim_end_of_white(rest);
    }
    text::law_trimming_takes_space_off(s, Seq::empty(), Seq::empty());
    assert(s + Seq::<char>::empty() + Seq::<char>::empty() =~= s);
    assert(text::trim_end(s) =~= Seq::empty());
    text::law_trimming_takes_space_off(Seq::empty(), Seq::empty(), Seq::empty());
    assert(Seq::<char>::empty() + Seq::<char>::empty() + Seq::<char>::empty()
        =~= Seq::<char>::empty());
    assert(text::trim(s) =~= Seq::empty());
}

proof fn lemma_trim_order(s: Seq<char>)
    requires
        s.len() > 0,
        text::is_whitespace(s[0]),
        !text::is_blank(s.drop_first()),
    ensures
        text::trim(text::trim_end(s)) == text::trim(s.drop_first()),
    decreases s.len(),
{
    let rest = s.drop_first();
    if text::is_whitespace(rest[0]) {
        lemma_trim_end_drop_first(s);
        lemma_trim_order(rest);
    } else {
        lemma_trim_end_drop_first(s);
        assert(text::trim_start(rest) == rest);
        lemma_trim_end_keeps(seq![rest[0]], rest.drop_first());
        assert(seq![rest[0]] + rest.drop_first() =~= rest);
        lemma_trim_end_twice(rest);
    }
}

proof fn lemma_trim_end_drop_first(s: Seq<char>)
    requires
        s.len() > 0,
        text::is_whitespace(s[0]),
        !text::is_blank(s.drop_first()),
    ensures
        text::trim_end(s).len() > 0,
        text::trim_end(s)[0] == s[0],
        text::trim_end(s).drop_first() == text::trim_end(s.drop_first()),
        text::trim(text::trim_end(s)) == text::trim(text::trim_end(s.drop_first())),
    decreases s.len(),
{
    let rest = s.drop_first();
    if text::is_whitespace(s.last()) {
        if s.len() == 1 {
            assert(text::trim(rest).len() == 0);
        } else {
            let less = s.drop_last();
            assert(less.drop_first() =~= rest.drop_last());
            assert(rest.last() == s.last());
            if text::is_blank(rest.drop_last()) {
                lemma_blank_is_white(rest.drop_last());
                assert forall|i: int| 0 <= i < rest.len() implies text::is_whitespace(
                    #[trigger] rest[i],
                ) by {
                    if i < rest.len() - 1 {
                        assert(rest.drop_last()[i] == rest[i]);
                    }
                }
                lemma_trim_end_of_white(rest);
            }
            lemma_trim_end_drop_first(less);
        }
    } else {
        assert(rest.len() > 0 ==> rest.last() == s.last());
    }
}

proof fn lemma_trim_end_twice(s: Seq<char>)
    requires
        s.len() > 0,
        !text::is_whitespace(s[0]),
    ensures
        text::trim(text::trim_end(s)) == text::trim_end(s),
        text::trim(s) == text::trim_end(s),
{
    lemma_trim_end_keeps(seq![s[0]], s.drop_first());
    assert(seq![s[0]] + s.drop_first() =~= s);
    text::lemma_trim_is_final(s);
}

/// How plain pairs stand in a body: as its fields.
pub proof fn lemma_pairs_are_fields(pairs: Pairs, separator: Seq<char>)
    requires
        separator == "\n"@ || separator == "&"@,
        forall|i: int|
            0 <= i < pairs.len() ==> request_body::is_plain_field(#[trigger] pairs[i]),
    ensures
        request_body::body_fields(pairs_text(pairs, separator)) == pairs,
{
    let f = |pair: (Seq<char>, Seq<char>)| request_body::field_text(pair);
    let texts = pairs.map_values(|pair: (Seq<char>, Seq<char>)| pair_text(pair));
    assert forall|i: int| 0 <= i < pairs.len() implies f(#[trigger] pairs[i]) == Some(
        texts[i],
    ) by {
        assert(request_body::is_plain_field(pairs[i]));
        request_body::law_item_states_a_field(pairs[i].0, pairs[i].1);
    }
    text::lemma_filter_map_of_all(pairs, f);
    assert(request_body::field_texts(pairs) =~= texts);
    request_body::law_written_fields_are_read(pairs, separator);
}

/// The entries of a URL-encoded body are the fields of the body, converted and in order; so are
/// those of a form, which stand on lines of their own.
pub proof fn law_entries_are_the_fields_of_the_body(
    items: Seq<JsonTree>,
    pairs: Pairs,
    mode: Seq<char>,
)
    requires
        are_entries_of(items, pairs),
        are_plain(pairs),
        pairs.len() > 0,
        text::ascii_lower(text::trim(mode)) == "urlencoded"@ || text::ascii_lower(text::trim(mode))
            == "formdata"@,
    ensures
        request_body::body_fields(payload_text(JsonTree::List(items), mode)) == converted(pairs),
        !text::is_blank(payload_text(JsonTree::List(items), mode)),
{
    reveal_strlit("urlencoded");
    reveal_strlit("formdata");
    assert("urlencoded"@[0] == 'u' && "formdata"@[0] == 'f');
    law_entries_state_their_pairs(items, pairs);
    lemma_pairs_are_fields(converted(pairs), "&"@);
    lemma_pairs_are_fields(converted(pairs), "\n"@);
    let body = payload_text(JsonTree::List(items), mode);
    if text::is_blank(body) {
        lemma_blank_body(body);
    }
}

/// A blank body has no fields.
pub proof fn lemma_blank_body(body: Seq<char>)
    requires
        text::is_blank(body),
    ensures
        request_body::body_fields(body).len() == 0,
{
    let fields = request_body::body_fields(body);
    if fields.len() > 0 {
        let f = |item: Seq<char>| request_body::body_field(item);
        let items = text::split_at_any(body, '\n', '&');
        assert(fields.contains(fields[0]));
        items.lemma_filter_map_contains(f, fields[0]);
        let item = choose|item: Seq<char>|
            items.contains(item) && #[trigger] f(item) == Some(fields[0]);
        let k = choose|k: int| 0 <= k < items.len() && items[k] == item;
        lemma_blank_is_white(body);
        lemma_pieces_are_white(body, k);
        text::law_trimming_takes_space_off(item, Seq::empty(), Seq::empty());
        assert(item + Seq::<char>::empty() + Seq::<char>::empty() =~= item);
        let content = text::trim(item);
        assert(content =~= Seq::empty());
        text::lemma_first_of(content, '=', '=', 0);
    }
}

proof fn lemma_pieces_are_white(s: Seq<char>, k: int)
    requires
        forall|i: int| 0 <= i < s.len() ==> text::is_whitespace(#[trigger] s[i]),
        0 <= k < text::split_at_any(s, '\n', '&').len(),
    ensures
        forall|i: int|
            0 <= i < text::split_at_any(s, '\n', '&')[k].len() ==> text::is_whitespace(
                #[trigger] text::split_at_any(s, '\n', '&')[k][i],
            ),
    decreases s.len(),
{
    let n = text::first_of(s, '\n', '&');
    text::lemma_first_of_bounds(s, '\n', '&');
    let pieces = text::split_at_any(s, '\n', '&');
    if n < s.len() {
        let rest = s.skip(n + 1);
        if k == 0 {
            assert(pieces[0] == s.take(n));
        } else {
            assert forall|i: int| 0 <= i < rest.len() implies text::is_whitespace(
                #[trigger] rest[i],
            ) by {
                assert(rest[i] == s[n + 1 + i]);
            }
            lemma_pieces_are_white(rest, k - 1);
            assert(pieces[k] == text::split_at_any(rest, '\n', '&')[k - 1]);
        }
    } else {
        assert(pieces[k] == s);
    }
}

/// A text is a body as it is, in any mode, with its placeholders converted.
pub proof fn law_text_payload_stays(content: Seq<char>, mode: Seq<char>)
    ensures
        payload_text(JsonTree::Text(content), mode) == placeholders::normalized(content),
{
}

/// A file is `@` and its path.
pub proof fn law_file_payload_names_the_file(fields: Fields, path: Seq<char>, mode: Seq<char>)
    requires
        json::field(fields, "src"@) == Some(JsonTree::Text(path)),
        !text::is_blank(path),
        text::ascii_lower(text::trim(mode)) == "file"@ || text::ascii_lower(text::trim(mode))
            == "binary"@,
    ensures
        payload_text(JsonTree::Record(fields), mode) == "@"@ + placeholders::normalized(
            text::trim(path),
        ),
{
    lemma_payload_modes();
}

/// A GraphQL query without variables is a body as it is, with its placeholders converted.
pub proof fn law_graphql_payload_is_the_query(fields: Fields, query: Seq<char>, mode: Seq<char>)
    requires
        json::field(fields, "query"@) == Some(JsonTree::Text(query)),
        json::field(fields, "variables"@) is None || json::field(fields, "variables"@) == Some(
            JsonTree::Null,
        ),
        !text::is_blank(query),
        text::ascii_lower(text::trim(mode)) == "graphql"@,
    ensures
        payload_text(JsonTree::Record(fields), mode) == placeholders::normalized(
            text::trim(query),
        ),
{
    lemma_payload_modes();
    let content = placeholders::normalized(text::trim(query));
    assert(content + Seq::<char>::empty() =~= content);
}

proof fn lemma_payload_modes()
    ensures
        "urlencoded"@ != "formdata"@ && "urlencoded"@ != "graphql"@ && "urlencoded"@ != "file"@
            && "urlencoded"@ != "binary"@,
        "formdata"@ != "graphql"@ && "formdata"@ != "file"@ && "formdata"@ != "binary"@,
        "graphql"@ != "file"@ && "graphql"@ != "binary"@ && "file"@ != "binary"@,
{
    reveal_strlit("urlencoded");
    reveal_strlit("formdata");
    reveal_strlit("graphql");
    reveal_strlit("file");
    reveal_strlit("binary");
    assert("urlencoded"@[0] == 'u' && "formdata"@[1] == 'o' && "graphql"@[0] == 'g');
    assert("file"@[1] == 'i' && "binary"@[0] == 'b' && "file"@[0] == 'f' && "formdata"@[0] == 'f');
}

/// A request that states a raw text has it as its body, with its placeholders converted.
pub proof fn law_raw_text_is_the_body(data: Fields, raw: Seq<char>)
    requires
        json::field(data, "rawModeData"@) == Some(JsonTree::Text(raw)),
        !text::is_blank(raw),
    ensures
        data_body(data) == placeholders::normalized(raw),
{
}

/// So has one whose body states a raw text, unless it states another one itself.
pub proof fn law_raw_text_of_the_body(data: Fields, body: Fields, raw: Seq<char>)
    requires
        json::field(data, "rawModeData"@) is None,
        json::field(data, "body"@) == Some(JsonTree::Record(body)),
        json::field(body, "raw"@) == Some(JsonTree::Text(raw)),
        !text::is_blank(raw),
    ensures
        data_body(data) == placeholders::normalized(text::trim(raw)),
{
    assert(text::trim(Seq::<char>::empty()).len() == 0);
}

/// The entries that a request states as its data are the fields of its body.
pub proof fn law_data_entries_are_the_fields_of_the_body(
    data: Fields,
    items: Seq<JsonTree>,
    pairs: Pairs,
    mode: Seq<char>,
)
    requires
        json::field(data, "rawModeData"@) is None || json::field(data, "rawModeData"@) == Some(
            JsonTree::Null,
        ),
        json::field(data, "body"@) is None,
        json::field(data, "data"@) == Some(JsonTree::List(items)),
        json::field(data, "dataMode"@) == Some(JsonTree::Text(mode)),
        are_entries_of(items, pairs),
        are_plain(pairs),
        pairs.len() > 0,
        text::ascii_lower(text::trim(mode)) == "urlencoded"@ || text::ascii_lower(text::trim(mode))
            == "formdata"@,
    ensures
        request_body::body_fields(data_body(data)) == converted(pairs),
        !text::is_blank(data_body(data)),
        data_body_mode(data) == (if text::ascii_lower(text::trim(mode)) == "urlencoded"@ {
            "urlencoded"@
        } else {
            "form-data"@
        }),
{
    let plain = text::ascii_lower(text::trim(mode));
    lemma_payload_modes();
    lemma_plain_mode(plain);
    law_entries_are_the_fields_of_the_body(items, pairs, plain);
    assert(text::trim(Seq::<char>::empty()).len() == 0);
    request_body::law_names_of_modes(mode, plain);
}

/// So are those that its body states under `urlencoded` or `formdata`.
pub proof fn law_body_entries_are_the_fields_of_the_body(
    data: Fields,
    body: Fields,
    items: Seq<JsonTree>,
    pairs: Pairs,
    place: Seq<char>,
)
    requires
        json::field(data, "rawModeData"@) is None,
        json::field(data, "data"@) is None,
        json::field(data, "dataMode"@) is None,
        json::field(data, "body"@) == Some(JsonTree::Record(body)),
        json::field(body, "raw"@) is None,
        json::field(body, "mode"@) is None || json::field(body, "mode"@) == Some(
            JsonTree::Text(place),
        ),
        place == "urlencoded"@ || (place == "formdata"@ && json::field(body, "urlencoded"@) is None),
        json::field(body, place) == Some(JsonTree::List(items)),
        are_entries_of(items, pairs),
        are_plain(pairs),
        pairs.len() > 0,
    ensures
        request_body::body_fields(data_body(data)) == converted(pairs),
        !text::is_blank(data_body(data)),
        data_body_mode(data) == (if place == "urlencoded"@ {
            "urlencoded"@
        } else {
            "form-data"@
        }),
{
    lemma_payload_modes();
    lemma_plain_mode(place);
    law_entries_are_the_fields_of_the_body(items, pairs, place);
    assert(text::trim(Seq::<char>::empty()).len() == 0);
    request_body::law_names_of_modes(place, place);
    let keys = payload_keys();
    reveal_with_fuel(first_payload, 3);
    assert(keys[0] == "urlencoded"@);
    assert(keys.drop_first()[0] == "formdata"@);
    assert(text::ascii_lower(text::trim(place)) == place);
}

proof fn lemma_plain_mode(mode: Seq<char>)
    requires
        mode == "urlencoded"@ || mode == "formdata"@,
    ensures
        text::ascii_lower(text::trim(mode)) == mode,
{
    reveal_strlit("urlencoded");
    reveal_strlit("formdata");
    assert(text::trim(mode) == mode);
    assert(text::ascii_lower(mode) =~= mode);
}

/// The body mode is the one that the request states, else the one that its body states.
pub proof fn law_stated_mode_counts(data: Fields, body: Fields, mode: Seq<char>)
    ensures
        json::field(data, "dataMode"@) == Some(JsonTree::Text(mode)) ==> data_body_mode(data)
            == request_body::body_mode(mode),
        json::field(data, "dataMode"@) is None && json::field(data, "body"@) == Some(
            JsonTree::Record(body),
        ) && json::field(body, "mode"@) == Some(JsonTree::Text(mode)) ==> data_body_mode(data)
            == request_body::body_mode(mode),
        json::field(data, "dataMode"@) is None && json::field(data, "body"@) is None && json::field(
            data,
            "rawModeData"@,
        ) == Some(JsonTree::Text(mode)) ==> data_body_mode(data) == "raw"@,
        json::field(data, "dataMode"@) is None && json::field(data, "body"@) is None && json::field(
            data,
            "rawModeData"@,
        ) is None ==> data_body_mode(data) == "none"@,
{
}

/// The entries that a request states as its headers are its headers, converted and in order,
/// whichever of the names they stand under.
pub proof fn law_header_entries_are_the_headers(
    data: Fields,
    place: Seq<char>,
    items: Seq<JsonTree>,
    pairs: Pairs,
)
    requires
        place == "headerData"@ || (json::field(data, "headerData"@) is None && (place == "headers"@
            || (json::field(data, "headers"@) is None && place == "header"@))),
        json::field(data, place) == Some(JsonTree::List(items)),
        json::field(data, "auth"@) is None,
        are_entries_of(items, pairs),
    ensures
        data_headers(data) == converted(pairs),
{
    law_entries_state_their_pairs(items, pairs);
}

/// Whether the way to authenticate is of a kind and has a setting as a text.
pub open spec fn has_setting(
    auth: JsonTree,
    kind: Seq<char>,
    name: Seq<char>,
    value: Seq<char>,
) -> bool {
    auth matches JsonTree::Record(fields) && json::field(fields, "type"@) == Some(
        JsonTree::Text(kind),
    ) && (json::field(fields, kind) matches Some(JsonTree::List(items)) && items.len() == 1
        && is_entry_of(items[0], (name, value)))
}

/// A bearer token is sent in the `Authorization` header, with its placeholders converted; so is
/// the access token of OAuth 2.
pub proof fn law_token_is_sent(auth: JsonTree, token: Seq<char>)
    requires
        has_setting(auth, "bearer"@, "token"@, token) || has_setting(
            auth,
            "oauth2"@,
            "accessToken"@,
            token,
        ),
        !text::is_blank(token),
    ensures
        auth_headers(auth) == seq![
            ("Authorization"@, "Bearer "@ + placeholders::normalized(text::trim(token))),
        ],
        auth_query(auth) == Seq::<(Seq<char>, Seq<char>)>::empty(),
{
    lemma_auth_kinds();
    let fields = auth->Record_0;
    let kind = auth_type(fields);
    let items = json::field(fields, kind)->0->List_0;
    let f = |item: JsonTree| entry_setting(item);
    assert(items =~= seq![items[0]]);
    Seq::lemma_filter_map_singleton(items[0], f);
    let pair = f(items[0])->0;
    assert(seq![pair].drop_last() =~= Seq::<(Seq<char>, Seq<char>)>::empty());
    reveal_with_fuel(bound, 2);
    assert(auth_settings(fields, kind) =~= Map::empty().insert(pair.0, token));
}

proof fn lemma_auth_kinds()
    ensures
        "bearer"@ != "oauth2"@ && "bearer"@ != "apikey"@ && "oauth2"@ != "apikey"@,
        text::ascii_lower(text::trim("bearer"@)) == "bearer"@,
        text::ascii_lower(text::trim("oauth2"@)) == "oauth2"@,
        text::ascii_lower(text::trim("apikey"@)) == "apikey"@,
        text::ascii_lower(text::trim("token"@)) == "token"@,
        text::ascii_lower(text::trim("accessToken"@)) == "accesstoken"@,
{
    reveal_strlit("bearer");
    reveal_strlit("oauth2");
    reveal_strlit("apikey");
    reveal_strlit("token");
    reveal_strlit("accessToken");
    reveal_strlit("accesstoken");
    assert("bearer"@[0] == 'b' && "oauth2"@[0] == 'o' && "apikey"@[0] == 'a');
    assert(text::trim("bearer"@) == "bearer"@ && text::trim("oauth2"@) == "oauth2"@);
    assert(text::trim("apikey"@) == "apikey"@ && text::trim("token"@) == "token"@);
    assert(text::trim("accessToken"@) == "accessToken"@);
    assert(text::ascii_lower("bearer"@) =~= "bearer"@);
    assert(text::ascii_lower("oauth2"@) =~= "oauth2"@);
    assert(text::ascii_lower("apikey"@) =~= "apikey"@);
    assert(text::ascii_lower("token"@) =~= "token"@);
    assert(text::ascii_lower("accessToken"@) =~= "accesstoken"@);
}

/// Whether the way to authenticate is an API key with name, value and place as texts.
pub open spec fn is_api_key(
    auth: JsonTree,
    key: Seq<char>,
    value: Seq<char>,
    place: Seq<char>,
) -> bool {
    auth matches JsonTree::Record(fields) && json::field(fields, "type"@) == Some(
        JsonTree::Text("apikey"@),
    ) && json::field(fields, "apikey"@) == Some(
        JsonTree::Record(
            seq![
                ("in"@, JsonTree::Text(place)),
                ("key"@, JsonTree::Text(key)),
                ("value"@, JsonTree::Text(value)),
            ],
        ),
    )
}

/// An API key is sent where it says: in the query, or else in a header, under its name and with
/// its value.
pub proof fn law_api_key_is_sent_in_its_place(
    auth: JsonTree,
    key: Seq<char>,
    value: Seq<char>,
    place: Seq<char>,
)
    requires
        is_api_key(auth, key, value, place),
        !text::is_blank(key),
        !text::is_blank(value),
    ensures
        ({
            let pair = (
                placeholders::normalized(text::trim(key)),
                placeholders::normalized(text::trim(value)),
            );
            if text::ascii_lower(text::trim(place)) == "query"@ {
                auth_query(auth) == seq![pair] && auth_headers(auth).len() == 0
            } else {
                auth_headers(auth) == seq![pair] && auth_query(auth).len() == 0
            }
        }),
{
    lemma_auth_kinds();
    reveal_strlit("in");
    reveal_strlit("key");
    reveal_strlit("value");
    assert("in"@[0] == 'i' && "key"@[0] == 'k' && "value"@[0] == 'v');
    assert(text::trim("in"@) == "in"@ && text::trim("key"@) == "key"@ && text::trim("value"@)
        == "value"@);
    assert(text::ascii_lower("in"@) =~= "in"@);
    assert(text::ascii_lower("key"@) =~= "key"@);
    assert(text::ascii_lower("value"@) =~= "value"@);
    let fields = auth->Record_0;
    let stated = json::field(fields, "apikey"@)->0->Record_0;
    let pairs = seq![("in"@, place), ("key"@, key), ("value"@, value)];
    let f = |field: (Seq<char>, JsonTree)| field_setting(field);
    assert forall|i: int| 0 <= i < stated.len() implies f(#[trigger] stated[i]) == Some(
        pairs[i],
    ) by {}
    text::lemma_filter_map_of_all(stated, f);
    assert(stated.filter_map(f) =~= pairs);
    reveal_with_fuel(bound, 4);
    assert(pairs.drop_last() =~= seq![("in"@, place), ("key"@, key)]);
    assert(pairs.drop_last().drop_last() =~= seq![("in"@, place)]);
    assert(pairs.drop_last().drop_last().drop_last() =~= Seq::<(Seq<char>, Seq<char>)>::empty());
    let settings = auth_settings(fields, "apikey"@);
    assert(settings.dom().contains("in"@) && settings["in"@] == place);
    assert(settings.dom().contains("key"@) && settings["key"@] == key);
    assert(settings.dom().contains("value"@) && settings["value"@] == value);
}

/// What a request authenticates by is added to the headers that it states, unless it states a
/// header of that name itself.
pub proof fn law_authentication_is_added(
    data: Fields,
    auth: JsonTree,
    token: Seq<char>,
    items: Seq<JsonTree>,
    pairs: Pairs,
)
    requires
        json::field(data, "headerData"@) == Some(JsonTree::List(items)),
        are_entries_of(items, pairs),
        json::field(data, "auth"@) == Some(auth),
        has_setting(auth, "bearer"@, "token"@, token),
        !text::is_blank(token),
    ensures
        (forall|i: int|
            0 <= i < pairs.len() ==> text::ascii_lower(
                text::trim((#[trigger] converted(pairs)[i]).0),
            ) != "authorization"@) ==> data_headers(data) == converted(pairs).push(
            ("Authorization"@, "Bearer "@ + placeholders::normalized(text::trim(token))),
        ),
        (exists|i: int|
            0 <= i < pairs.len() && text::ascii_lower(
                text::trim((#[trigger] converted(pairs)[i]).0),
            ) == "authorization"@) ==> data_headers(data) == converted(pairs),
{
    law_entries_state_their_pairs(items, pairs);
    law_token_is_sent(auth, token);
    reveal_strlit("Authorization");
    reveal_strlit("authorization");
    assert(text::trim("Authorization"@) == "Authorization"@);
    assert(text::ascii_lower("Authorization"@) =~= "authorization"@);
    let sent = auth_headers(auth);
    let stated = converted(pairs);
    assert(sent.drop_last() =~= Seq::<(Seq<char>, Seq<char>)>::empty());
    reveal_with_fuel(merge::merged_headers, 2);
    assert("Authorization"@.len() > 0);
    if exists|i: int|
        0 <= i < pairs.len() && text::ascii_lower(text::trim((#[trigger] stated[i]).0))
            == "authorization"@ {
        let i = choose|i: int|
            0 <= i < pairs.len() && text::ascii_lower(text::trim((#[trigger] stated[i]).0))
                == "authorization"@;
        assert(merge::header_name(stated[i]) == "authorization"@);
        assert(merge::has_header(stated, "authorization"@));
    } else if merge::has_header(stated, "authorization"@) {
        let i = choose|i: int|
            0 <= i < stated.len() && merge::header_name(#[trigger] stated[i]) == "authorization"@;
        assert(text::ascii_lower(text::trim(stated[i].0)) == "authorization"@);
    }
}

/// A URL that stands as a text is taken as it is, without surrounding white space, where the
/// request states no query of its own.
pub proof fn law_url_text_is_the_url(data: Fields, url: Seq<char>)
    requires
        json::field(data, "url"@) == Some(JsonTree::Text(url)),
        json::field(data, "queryParams"@) is None,
        json::field(data, "auth"@) is None,
    ensures
        data_url(data) == Some(text::trim(url)),
{
    assert(query_pairs(data) =~= Seq::empty());
    let none = query_pairs(data) + auth_field_query(data);
    assert(none =~= Seq::empty());
    assert(pairs_text(none, "&"@) =~= Seq::empty());
}

/// So is the raw text of a URL that is taken apart.
pub proof fn law_raw_url_is_the_url(data: Fields, url: Fields, raw: Seq<char>)
    requires
        json::field(data, "url"@) == Some(JsonTree::Record(url)),
        json::field(url, "raw"@) == Some(JsonTree::Text(raw)),
        !text::is_blank(raw),
        raw.contains('?') || (json::field(data, "queryParams"@) is None && json::field(
            url,
            "queryParams"@,
        ) is None && json::field(url, "query"@) is None && json::field(data, "auth"@) is None),
    ensures
        text::trim(raw).contains('?') || !raw.contains('?') ==> data_url(data) == Some(
            text::trim(raw),
        ),
{
    if !raw.contains('?') {
        assert(query_pairs(data) =~= Seq::empty());
        let none = query_pairs(data) + auth_field_query(data);
        assert(none =~= Seq::empty());
        assert(pairs_text(none, "&"@) =~= Seq::empty());
    }
}

/// The pairs that are added to a URL without query and fragment are its query parameters.
pub proof fn law_query_of_the_url(url: Seq<char>, pairs: Pairs)
    requires
        !url.contains('?'),
        !url.contains('#'),
        forall|i: int|
            0 <= i < pairs.len() ==> urls::is_plain_key((#[trigger] pairs[i]).0)
                && urls::is_plain_value(pairs[i].1),
    ensures
        urls::split_query(with_query(url, pairs)) == (url, pairs),
{
    reveal_strlit("?");
    let items = pairs.map_values(|pair: (Seq<char>, Seq<char>)| pair_text(pair));
    assert forall|i: int| 0 <= i < pairs.len() implies urls::is_item_of(items[i], #[trigger] pairs[i]) by {
        assert(urls::is_plain_key(pairs[i].0) && urls::is_plain_value(pairs[i].1));
        assert(pairs[i].1.len() == 0 ==> pairs[i].1 =~= Seq::empty());
    }
    assert forall|j: int| 0 <= j < url.len() implies url[j] != '#' by {
        assert(url.contains(url[j]));
    }
    text::lemma_first_of(url, '#', '#', url.len() as int);
    assert(url.take(url.len() as int) =~= url);
    assert(url.skip(url.len() as int) =~= Seq::empty());
    urls::law_added_params_are_found(url, items, pairs);
    let query = text::join(items, "&"@);
    if pairs.len() > 0 {
        assert(urls::is_plain_key(pairs[0].0));
        lemma_join_is_not_empty(items, "&"@);
        assert(urls::add_to_query(url, items) =~= url + "?"@ + query);
    } else {
        assert(query =~= Seq::empty());
    }
}

proof fn lemma_join_is_not_empty(parts: Seq<Seq<char>>, separator: Seq<char>)
    requires
        parts.len() > 0,
        parts[0].len() > 0,
    ensures
        text::join(parts, separator).len() > 0,
    decreases parts.len(),
{
    if parts.len() > 1 {
        lemma_join_is_not_empty(parts.drop_last(), separator);
    }
}

/// A URL that is taken apart is put together: protocol, host, port and path.
pub proof fn law_url_is_put_together(
    protocol: Seq<char>,
    host: Seq<char>,
    port: Seq<char>,
    path: Seq<char>,
)
    requires
        host.len() > 0,
        text::trim(host) == host,
        host[0] != '/' && host.last() != '/',
        path.len() > 0,
        path[0] != '/' && path.last() != '/',
    ensures
        url_of(Some(protocol), Some(host), None, None) == Some(protocol + "://"@ + host),
        url_of(None, Some(host), None, None) == Some("https"@ + "://"@ + host),
        url_of(Some(protocol), Some(host), Some(port), Some(path)) == Some(
            protocol + "://"@ + host + ":"@ + port + "/"@ + path,
        ),
        url_of(Some(protocol), Some(host), None, Some("/"@ + path)) == Some(
            protocol + "://"@ + host + "/"@ + path,
        ),
        url_of(Some(protocol), None, Some(port), Some(path)) is None,
{
    reveal_strlit("/");
    let slashed = "/"@ + path;
    assert(slashed.drop_first() =~= path);
    assert(folders::strip(host, '/') == host);
    assert(folders::strip(path, '/') == path);
    assert(folders::strip(slashed, '/') == path);
    let start = protocol + "://"@ + host;
    assert(start + Seq::<char>::empty() + Seq::<char>::empty() =~= start);
    let secure = "https"@ + "://"@ + host;
    assert(secure + Seq::<char>::empty() + Seq::<char>::empty() =~= secure);
    assert(start + (":"@ + port) + ("/"@ + path) =~= start + ":"@ + port + "/"@ + path);
    assert(start + Seq::<char>::empty() + ("/"@ + path) =~= start + "/"@ + path);
}

/// A method is taken in upper case; a request without one is a `GET`.
pub proof fn law_method_is_taken(method: Seq<char>)
    ensures
        imported_method(None) == "GET"@,
        text::unicode_upper(text::trim(method)).len() > 0 ==> imported_method(Some(method))
            == text::unicode_upper(text::trim(method)),
{
}

/// Where no mode is stated, the part that a body has tells it.
pub proof fn law_part_tells_the_mode(data: Fields, body: Fields)
    requires
        json::field(data, "dataMode"@) is None,
        json::field(data, "rawModeData"@) is None,
        json::field(data, "body"@) == Some(JsonTree::Record(body)),
        json::field(body, "mode"@) is None,
    ensures
        ({
            let urlencoded = json::field(body, "urlencoded"@);
            let formdata = json::field(body, "formdata"@);
            let file = json::field(body, "file"@);
            let raw = json::field(body, "raw"@);
            let mode = data_body_mode(data);
            &&& urlencoded is Some && urlencoded->0 != JsonTree::Null ==> mode == "urlencoded"@
            &&& urlencoded is None && formdata is Some && formdata->0 != JsonTree::Null ==> mode
                == "form-data"@
            &&& urlencoded is None && formdata is None && file is Some && file->0 != JsonTree::Null
                ==> mode == "binary"@
            &&& urlencoded is None && formdata is None && file is None && raw is Some && raw->0
                != JsonTree::Null ==> mode == "raw"@
            &&& urlencoded is None && formdata is None && file is None && raw is None ==> mode
                == "none"@
        }),
{
}

/// The fields of a form stand in lines of their own, those of a URL-encoded body in one line
/// between `&`.
pub proof fn law_fields_are_set_apart(items: Seq<JsonTree>, mode: Seq<char>)
    requires
        stated_pairs(JsonTree::List(items)).len() > 0,
    ensures
        ({
            let lines = stated_pairs(JsonTree::List(items)).map_values(
                |pair: (Seq<char>, Seq<char>)| pair_text(pair),
            );
            &&& text::ascii_lower(text::trim(mode)) == "formdata"@ ==> payload_text(
                JsonTree::List(items),
                mode,
            ) == text::join(lines, "\n"@)
            &&& text::ascii_lower(text::trim(mode)) == "urlencoded"@ ==> payload_text(
                JsonTree::List(items),
                mode,
            ) == text::join(lines, "&"@)
        }),
{
    lemma_payload_modes();
}

/// The variables of a GraphQL query follow it, as JSON.
pub proof fn law_graphql_variables_follow_the_query(
    fields: Fields,
    query: Seq<char>,
    variables: JsonTree,
    mode: Seq<char>,
)
    requires
        json::field(fields, "query"@) == Some(JsonTree::Text(query)),
        json::field(fields, "variables"@) == Some(variables),
        variables != JsonTree::Null,
        !text::is_blank(query),
        text::ascii_lower(text::trim(mode)) == "graphql"@,
    ensures
        payload_text(JsonTree::Record(fields), mode) == placeholders::normalized(text::trim(query))
            + "\n\nvariables: "@ + placeholders::normalized(
            json::pretty_text(json::in_order(variables)),
        ),
{
    lemma_payload_modes();
    reveal_strlit("\n\nvariables: ");
    reveal_strlit("\n\n");
    reveal_strlit("variables: ");
    assert("\n\nvariables: "@ =~= "\n\n"@ + "variables: "@);
    assert(payload_text(JsonTree::Record(fields), mode) =~= placeholders::normalized(
        text::trim(query),
    ) + "\n\nvariables: "@ + placeholders::normalized(
        json::pretty_text(json::in_order(variables)),
    ));
}

} // verus!
