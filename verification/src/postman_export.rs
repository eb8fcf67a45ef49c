//! Requests, collections and environments as Postman exports them.
use crate::defaults;
use crate::defaults::create_id;
use crate::folders;
use crate::json;
use crate::json::{json_value_to_string, Json, JsonTree};
use crate::merge;
use crate::merge::merge_header_pairs;
use crate::models::{Endpoint, EndpointView, KeyValue};
use crate::placeholders;
use crate::placeholders::normalize_postman_placeholders;
use crate::postman;
use crate::postman::{
    add_query, auth_headers_from_value, auth_query_pairs_from_value, build_url, import_method, make_pair,
    postman_path_like_value_to_string, render_postman_body_payload, text_or, text_or_empty, Pairs,
};
use crate::request_body;
use crate::request_body::normalize_body_mode_owned;
use crate::text;
use crate::text::{
    blank, concat3, eq_ignore_case, joined, non_empty_trimmed, to_ascii_lower, trimmed,
};
use crate::urls;
use vstd::prelude::*;

verus! {

/// A header of an exported request.
pub struct PostmanHeader {
    pub key: Option<String>,
    pub value: Option<Json>,
    pub disabled: Option<bool>,
    pub enabled: Option<bool>,
}

/// A field of a form or of a query.
pub struct PostmanField {
    pub key: Option<String>,
    pub value: Option<Json>,
    pub field_type: Option<String>,
    pub src: Option<Json>,
    pub disabled: Option<bool>,
    pub enabled: Option<bool>,
}

pub struct PostmanGraphqlBody {
    pub query: Option<String>,
    pub variables: Option<Json>,
}

/// The body of an exported request.
pub struct PostmanBody {
    pub mode: Option<String>,
    pub raw: Option<String>,
    pub urlencoded: Option<Vec<PostmanField>>,
    pub formdata: Option<Vec<PostmanField>>,
    pub file: Option<Json>,
    pub graphql: Option<PostmanGraphqlBody>,
}

pub struct PostmanUrlObject {
    pub raw: Option<String>,
    pub protocol: Option<String>,
    pub host: Option<Json>,
    pub path: Option<Json>,
    pub port: Option<String>,
    pub query: Option<Vec<PostmanField>>,
}

/// The URL of an exported request: as text, or taken apart.
pub enum PostmanUrl {
    RawString(String),
    UrlObject(PostmanUrlObject),
}

/// An exported request.
pub struct PostmanRequest {
    pub id: Option<String>,
    pub method: Option<String>,
    pub header: Option<Vec<PostmanHeader>>,
    pub body: Option<PostmanBody>,
    pub url: Option<PostmanUrl>,
    pub auth: Option<Json>,
}

#[verifier::ext_equal]
pub struct HeaderView {
    pub key: Option<Seq<char>>,
    pub value: Option<JsonTree>,
    pub disabled: Option<bool>,
    pub enabled: Option<bool>,
}

#[verifier::ext_equal]
pub struct FieldView {
    pub key: Option<Seq<char>>,
    pub value: Option<JsonTree>,
    pub field_type: Option<Seq<char>>,
    pub src: Option<JsonTree>,
    pub disabled: Option<bool>,
    pub enabled: Option<bool>,
}

#[verifier::ext_equal]
pub struct GraphqlView {
    pub query: Option<Seq<char>>,
    pub variables: Option<JsonTree>,
}

#[verifier::ext_equal]
pub struct BodyView {
    pub mode: Option<Seq<char>>,
    pub raw: Option<Seq<char>>,
    pub urlencoded: Option<Seq<FieldView>>,
    pub formdata: Option<Seq<FieldView>>,
    pub file: Option<JsonTree>,
    pub graphql: Option<GraphqlView>,
}

#[verifier::ext_equal]
pub struct UrlObjectView {
    pub raw: Option<Seq<char>>,
    pub protocol: Option<Seq<char>>,
    pub host: Option<JsonTree>,
    pub path: Option<JsonTree>,
    pub port: Option<Seq<char>>,
    pub query: Option<Seq<FieldView>>,
}

#[verifier::ext_equal]
pub enum UrlView {
    RawString(Seq<char>),
    UrlObject(UrlObjectView),
}

#[verifier::ext_equal]
pub struct RequestView {
    pub id: Option<Seq<char>>,
    pub method: Option<Seq<char>>,
    pub header: Option<Seq<HeaderView>>,
    pub body: Option<BodyView>,
    pub url: Option<UrlView>,
    pub auth: Option<JsonTree>,
}

/// The view of an optional value.
pub open spec fn view_of<T: View>(value: Option<T>) -> Option<T::V> {
    match value {
        Some(value) => Some(value@),
        None => None,
    }
}

/// The view of an optional list.
pub open spec fn views_of<T: View>(list: Option<Vec<T>>) -> Option<Seq<T::V>> {
    match list {
        Some(list) => Some(text::views(list@)),
        None => None,
    }
}

impl View for PostmanHeader {
    type V = HeaderView;

    open spec fn view(&self) -> HeaderView {
        HeaderView {
            key: view_of(self.key),
            value: view_of(self.value),
            disabled: self.disabled,
            enabled: self.enabled,
        }
    }
}

impl View for PostmanField {
    type V = FieldView;

    open spec fn view(&self) -> FieldView {
        FieldView {
            key: view_of(self.key),
            value: view_of(self.value),
            field_type: view_of(self.field_type),
            src: view_of(self.src),
            disabled: self.disabled,
            enabled: self.enabled,
        }
    }
}

impl View for PostmanGraphqlBody {
    type V = GraphqlView;

    open spec fn view(&self) -> GraphqlView {
        GraphqlView { query: view_of(self.query), variables: view_of(self.variables) }
    }
}

impl View for PostmanBody {
    type V = BodyView;

    open spec fn view(&self) -> BodyView {
        BodyView {
            mode: view_of(self.mode),
            raw: view_of(self.raw),
            urlencoded: views_of(self.urlencoded),
            formdata: views_of(self.formdata),
            file: view_of(self.file),
            graphql: view_of(self.graphql),
        }
    }
}

impl View for PostmanUrlObject {
    type V = UrlObjectView;

    open spec fn view(&self) -> UrlObjectView {
        UrlObjectView {
            raw: view_of(self.raw),
            protocol: view_of(self.protocol),
            host: view_of(self.host),
            path: view_of(self.path),
            port: view_of(self.port),
            query: views_of(self.query),
        }
    }
}

impl View for PostmanUrl {
    type V = UrlView;

    open spec fn view(&self) -> UrlView {
        match self {
            PostmanUrl::RawString(url) => UrlView::RawString(url@),
            PostmanUrl::UrlObject(url) => UrlView::UrlObject(url@),
        }
    }
}

impl View for PostmanRequest {
    type V = RequestView;

    open spec fn view(&self) -> RequestView {
        RequestView {
            id: view_of(self.id),
            method: view_of(self.method),
            header: views_of(self.header),
            body: view_of(self.body),
            url: view_of(self.url),
            auth: view_of(self.auth),
        }
    }
}

/// The trimmed text, where there is one and anything is left of it.
pub open spec fn content(value: Option<Seq<char>>) -> Option<Seq<char>> {
    match value {
        Some(value) => text::trimmed_content(value),
        None => None,
    }
}

fn get_content(value: &Option<String>) -> (r: Option<String>)
    ensures
        text::opt(r) == content(view_of(*value)),
{
    match value {
        Some(value) => non_empty_trimmed(value.as_str()),
        None => None,
    }
}

/// The text of an optional value; nothing where there is none.
pub open spec fn optional_text(value: Option<JsonTree>) -> Seq<char> {
    match value {
        Some(value) => json::plain_text(value),
        None => Seq::empty(),
    }
}

fn get_optional_text(value: &Option<Json>) -> (r: String)
    ensures
        r@ == optional_text(view_of(*value)),
{
    match value {
        Some(value) => json_value_to_string(value),
        None => String::new(),
    }
}

/// Whether an entry is in use.
pub open spec fn in_use(disabled: Option<bool>, enabled: Option<bool>) -> bool {
    disabled != Some(true) && enabled != Some(false)
}

fn is_in_use(disabled: Option<bool>, enabled: Option<bool>) -> (r: bool)
    ensures
        r == in_use(disabled, enabled),
{
    let disabled = match disabled {
        Some(flag) => flag,
        None => false,
    };
    let enabled = match enabled {
        Some(flag) => flag,
        None => true,
    };
    !disabled && enabled
}

/// The pair that an entry states.
pub open spec fn stated_pair(
    key: Option<Seq<char>>,
    value: Option<JsonTree>,
    disabled: Option<bool>,
    enabled: Option<bool>,
) -> Option<(Seq<char>, Seq<char>)> {
    if in_use(disabled, enabled) && key is Some {
        postman::clean_pair(key->0, optional_text(value))
    } else {
        None
    }
}

fn get_stated_pair(
    key: &Option<String>,
    value: &Option<Json>,
    disabled: Option<bool>,
    enabled: Option<bool>,
) -> (r: Option<KeyValue>)
    ensures
        match r {
            Some(pair) => stated_pair(view_of(*key), view_of(*value), disabled, enabled) == Some(
                pair@,
            ),
            None => stated_pair(view_of(*key), view_of(*value), disabled, enabled) is None,
        },
{
    if !is_in_use(disabled, enabled) {
        return None;
    }
    match key {
        Some(key) => make_pair(key.as_str(), get_optional_text(value).as_str()),
        None => None,
    }
}

// ---------------------------------------------------------------------------
// URLs
// ---------------------------------------------------------------------------

/// The query parameters that the fields state.
pub open spec fn field_query(fields: Seq<FieldView>) -> Pairs {
    fields.filter_map(
        |field: FieldView| stated_pair(field.key, field.value, field.disabled, field.enabled),
    )
}

fn get_field_query(fields: &Vec<PostmanField>) -> (r: Vec<KeyValue>)
    ensures
        text::views(r@) == field_query(text::views(fields@)),
{
    let mut r: Vec<KeyValue> = Vec::new();
    let ghost all = text::views(fields@);
    let ghost f = |field: FieldView|
        stated_pair(field.key, field.value, field.disabled, field.enabled);
    let mut i: usize = 0;
    assert(text::views(r@) =~= all.take(0).filter_map(f));
    while i < fields.len()
        invariant
            i <= fields@.len(),
            all == text::views(fields@),
            f == (|field: FieldView|
                stated_pair(field.key, field.value, field.disabled, field.enabled)),
            text::views(r@) == all.take(i as int).filter_map(f),
        decreases fields@.len() - i,
    {
        proof {
            all.lemma_filter_map_take_succ(f, i as int);
        }
        let field = &fields[i];
        if let Some(pair) = get_stated_pair(
            &field.key,
            &field.value,
            field.disabled,
            field.enabled,
        ) {
            proof {
                text::lemma_views_push(r@, pair);
            }
            r.push(pair);
        }
        i += 1;
    }
    assert(all.take(all.len() as int) =~= all);
    r
}

/// The host or path in an optional value.
pub open spec fn optional_path(value: Option<JsonTree>) -> Option<Seq<char>> {
    match value {
        Some(value) => postman::path_like(value),
        None => None,
    }
}

fn get_optional_path(value: &Option<Json>) -> (r: Option<String>)
    ensures
        text::opt(r) == optional_path(view_of(*value)),
{
    match value {
        Some(value) => postman_path_like_value_to_string(value),
        None => None,
    }
}

/// The query parameters of a request: those of its URL, and those by which it authenticates.
pub open spec fn exported_query(request: RequestView) -> Pairs {
    (match request.url {
        Some(UrlView::UrlObject(url)) => match url.query {
            Some(fields) => field_query(fields),
            None => Seq::empty(),
        },
        _ => Seq::empty(),
    }) + (match request.auth {
        Some(auth) => postman::auth_query(auth),
        None => Seq::empty(),
    })
}

/// The URL of a request, with its query.
pub open spec fn exported_url(request: RequestView) -> Option<Seq<char>> {
    let base = match request.url {
        Some(UrlView::RawString(url)) => Some(text::trim(url)),
        Some(UrlView::UrlObject(url)) => match content(url.raw) {
            Some(raw) => Some(raw),
            None => postman::url_of(
                content(url.protocol),
                optional_path(url.host),
                content(url.port),
                optional_path(url.path),
            ),
        },
        None => None,
    };
    match base {
        Some(url) => Some(postman::with_query(url, exported_query(request))),
        None => None,
    }
}

fn get_exported_query(request: &PostmanRequest) -> (r: Vec<KeyValue>)
    ensures
        text::views(r@) == exported_query(request@),
{
    let none: Vec<KeyValue> = Vec::new();
    assert(text::views(none@) =~= Seq::empty());
    let mut pairs = match &request.url {
        Some(PostmanUrl::UrlObject(url)) => match &url.query {
            Some(fields) => get_field_query(fields),
            None => none,
        },
        _ => none,
    };
    let ghost own = text::views(pairs@);
    let mut auth_pairs = match &request.auth {
        Some(auth) => auth_query_pairs_from_value(auth),
        None => Vec::new(),
    };
    let ghost added = text::views(auth_pairs@);
    assert(request.auth is None ==> added =~= Seq::empty());
    pairs.append(&mut auth_pairs);
    assert(text::views(pairs@) =~= own + added);
    pairs
}

pub fn postman_request_url(request: &PostmanRequest) -> (r: Option<String>)
    ensures
        text::opt(r) == exported_url(request@),
{
    let base = match &request.url {
        Some(PostmanUrl::RawString(url)) => Some(trimmed(url.as_str())),
        Some(PostmanUrl::UrlObject(url)) => match get_content(&url.raw) {
            Some(raw) => Some(raw),
            None => build_url(
                get_content(&url.protocol),
                get_optional_path(&url.host),
                get_content(&url.port),
                get_optional_path(&url.path),
            ),
        },
        None => None,
    };
    match base {
        Some(url) => Some(add_query(url, &get_exported_query(request))),
        None => None,
    }
}

// ---------------------------------------------------------------------------
// Headers
// ---------------------------------------------------------------------------

/// The headers that a list states.
pub open spec fn listed_headers(headers: Seq<HeaderView>) -> Pairs {
    headers.filter_map(
        |header: HeaderView|
            stated_pair(header.key, header.value, header.disabled, header.enabled),
    )
}

/// The headers of a request: those that it states, and those by which it authenticates.
pub open spec fn exported_headers(request: RequestView) -> Pairs {
    let stated = match request.header {
        Some(headers) => listed_headers(headers),
        None => Seq::empty(),
    };
    match request.auth {
        Some(auth) => merge::merged_headers(stated, postman::auth_headers(auth)),
        None => stated,
    }
}

fn get_listed_headers(headers: &Vec<PostmanHeader>) -> (r: Vec<KeyValue>)
    ensures
        text::views(r@) == listed_headers(text::views(headers@)),
{
    let mut r: Vec<KeyValue> = Vec::new();
    let ghost all = text::views(headers@);
    let ghost f = |header: HeaderView|
        stated_pair(header.key, header.value, header.disabled, header.enabled);
    let mut i: usize = 0;
    assert(text::views(r@) =~= all.take(0).filter_map(f));
    while i < headers.len()
        invariant
            i <= headers@.len(),
            all == text::views(headers@),
            f == (|header: HeaderView|
                stated_pair(header.key, header.value, header.disabled, header.enabled)),
            text::views(r@) == all.take(i as int).filter_map(f),
        decreases headers@.len() - i,
    {
        proof {
            all.lemma_filter_map_take_succ(f, i as int);
        }
        let header = &headers[i];
        if let Some(pair) = get_stated_pair(
            &header.key,
            &header.value,
            header.disabled,
            header.enabled,
        ) {
            proof {
                text::lemma_views_push(r@, pair);
            }
            r.push(pair);
        }
        i += 1;
    }
    assert(all.take(all.len() as int) =~= all);
    r
}

pub fn postman_request_headers(request: &PostmanRequest) -> (r: Vec<KeyValue>)
    ensures
        text::views(r@) == exported_headers(request@),
{
    let mut headers = match &request.header {
        Some(headers) => get_listed_headers(headers),
        None => {
            let none: Vec<KeyValue> = Vec::new();
            assert(text::views(none@) =~= Seq::empty());
            none
        },
    };
    if let Some(auth) = &request.auth {
        merge_header_pairs(&mut headers, auth_headers_from_value(auth));
    }
    headers
}

// ---------------------------------------------------------------------------
// Bodies
// ---------------------------------------------------------------------------

/// The body mode of a request.
pub open spec fn exported_body_mode(request: RequestView) -> Seq<char> {
    match request.body {
        None => "none"@,
        Some(body) => if body.mode is Some {
            request_body::body_mode(body.mode->0)
        } else if body.urlencoded is Some {
            "urlencoded"@
        } else if body.formdata is Some {
            "form-data"@
        } else if body.file is Some {
            "binary"@
        } else if body.raw is Some || body.graphql is Some {
            "raw"@
        } else {
            "none"@
        },
    }
}

pub fn postman_request_body_mode(request: &PostmanRequest) -> (r: String)
    ensures
        r@ == exported_body_mode(request@),
{
    match &request.body {
        None => "none".to_owned(),
        Some(body) => {
            if let Some(mode) = &body.mode {
                return normalize_body_mode_owned(mode.as_str());
            }
            if body.urlencoded.is_some() {
                return "urlencoded".to_owned();
            }
            if body.formdata.is_some() {
                return "form-data".to_owned();
            }
            if body.file.is_some() {
                return "binary".to_owned();
            }
            if body.raw.is_some() || body.graphql.is_some() {
                return "raw".to_owned();
            }
            "none".to_owned()
        },
    }
}

/// An optional text in JSON.
pub open spec fn text_tree(value: Option<Seq<char>>) -> JsonTree {
    match value {
        Some(value) => JsonTree::Text(value),
        None => JsonTree::Null,
    }
}

/// An optional value in JSON.
pub open spec fn value_tree(value: Option<JsonTree>) -> JsonTree {
    match value {
        Some(value) => value,
        None => JsonTree::Null,
    }
}

/// An optional truth value in JSON.
pub open spec fn bool_tree(value: Option<bool>) -> JsonTree {
    match value {
        Some(value) => JsonTree::Bool(value),
        None => JsonTree::Null,
    }
}

/// A field in JSON.
pub open spec fn field_tree(field: FieldView) -> JsonTree {
    JsonTree::Record(
        seq![
            ("disabled"@, bool_tree(field.disabled)),
            ("enabled"@, bool_tree(field.enabled)),
            ("key"@, text_tree(field.key)),
            ("src"@, value_tree(field.src)),
            ("type"@, text_tree(field.field_type)),
            ("value"@, value_tree(field.value)),
        ],
    )
}

/// A list of fields in JSON.
pub open spec fn fields_tree(fields: Seq<FieldView>) -> JsonTree {
    JsonTree::List(fields.map_values(|field: FieldView| field_tree(field)))
}

/// A GraphQL body in JSON.
pub open spec fn graphql_tree(body: GraphqlView) -> JsonTree {
    JsonTree::Record(
        seq![("query"@, text_tree(body.query)), ("variables"@, value_tree(body.variables))],
    )
}

fn text_json(value: &Option<String>) -> (r: Json)
    ensures
        r@ == text_tree(view_of(*value)),
{
    match value {
        Some(value) => Json::Text(value.clone()),
        None => Json::Null,
    }
}

fn value_json(value: &Option<Json>) -> (r: Json)
    ensures
        r@ == value_tree(view_of(*value)),
{
    match value {
        Some(value) => value.copy(),
        None => Json::Null,
    }
}

fn bool_json(value: Option<bool>) -> (r: Json)
    ensures
        r@ == bool_tree(value),
{
    match value {
        Some(value) => Json::Bool(value),
        None => Json::Null,
    }
}

fn field_json(field: &PostmanField) -> (r: Json)
    ensures
        r@ == field_tree(field@),
{
    let entries = vec![
        ("disabled".to_owned(), bool_json(field.disabled)),
        ("enabled".to_owned(), bool_json(field.enabled)),
        ("key".to_owned(), text_json(&field.key)),
        ("src".to_owned(), value_json(&field.src)),
        ("type".to_owned(), text_json(&field.field_type)),
        ("value".to_owned(), value_json(&field.value)),
    ];
    let ghost wanted = field_tree(field@);
    assert(text::views(entries@) =~= wanted->Record_0);
    let r = Json::Record(entries);
    proof {
        json::lemma_tree(r);
    }
    r
}

fn fields_json(fields: &Vec<PostmanField>) -> (r: Json)
    ensures
        r@ == fields_tree(text::views(fields@)),
{
    let mut items: Vec<Json> = Vec::new();
    let ghost all = text::views(fields@);
    let ghost f = |field: FieldView| field_tree(field);
    let mut i: usize = 0;
    assert(text::views(items@) =~= all.take(0).map_values(f));
    while i < fields.len()
        invariant
            i <= fields@.len(),
            all == text::views(fields@),
            f == (|field: FieldView| field_tree(field)),
            text::views(items@) == all.take(i as int).map_values(f),
        decreases fields@.len() - i,
    {
        let item = field_json(&fields[i]);
        proof {
            all.lemma_map_take_succ(f, i as int);
            text::lemma_views_push(items@, item);
        }
        items.push(item);
        i += 1;
    }
    assert(all.take(all.len() as int) =~= all);
    let r = Json::List(items);
    proof {
        json::lemma_tree(r);
    }
    r
}

fn graphql_json(body: &PostmanGraphqlBody) -> (r: Json)
    ensures
        r@ == graphql_tree(body@),
{
    let entries = vec![
        ("query".to_owned(), text_json(&body.query)),
        ("variables".to_owned(), value_json(&body.variables)),
    ];
    let ghost wanted = graphql_tree(body@);
    assert(text::views(entries@) =~= wanted->Record_0);
    let r = Json::Record(entries);
    proof {
        json::lemma_tree(r);
    }
    r
}

/// The first text in a list that is not blank.
pub open spec fn first_text(items: Seq<JsonTree>) -> Seq<char>
    decreases items.len(),
{
    if items.len() == 0 {
        Seq::empty()
    } else {
        match json::as_text(items[0]) {
            Some(path) => if !text::is_blank(path) {
                path
            } else {
                first_text(items.drop_first())
            },
            None => first_text(items.drop_first()),
        }
    }
}

/// The file that a source names: a text, or the first of a list.
pub open spec fn source_path(value: JsonTree) -> Seq<char> {
    match value {
        JsonTree::Text(path) => path,
        JsonTree::List(items) => first_text(items),
        _ => Seq::empty(),
    }
}

pub fn postman_file_src_to_string(value: &Json) -> (r: String)
    ensures
        r@ == source_path(value@),
{
    proof {
        json::lemma_tree(*value);
    }
    match value {
        Json::Text(path) => path.clone(),
        Json::List(items) => {
            let ghost all = text::views(items@);
            let mut i: usize = 0;
            assert(all.skip(0) =~= all);
            while i < items.len()
                invariant
                    i <= items@.len(),
                    all == text::views(items@),
                    value@ == JsonTree::List(all),
                    first_text(all) == first_text(all.skip(i as int)),
                decreases items@.len() - i,
            {
                proof {
                    assert(all.skip(i as int)[0] == items@[i as int]@);
                    assert(all.skip(i as int).drop_first() =~= all.skip(i + 1));
                }
                if let Some(path) = items[i].as_text() {
                    if !blank(path.as_str()) {
                        return path.clone();
                    }
                }
                i += 1;
            }
            String::new()
        },
        _ => String::new(),
    }
}

/// Whether a field stands for a file.
pub open spec fn is_file_field(field: FieldView) -> bool {
    match field.field_type {
        Some(name) => text::same_ignoring_case(text::trim(name), "file"@),
        None => false,
    }
}

/// How a field of a form is written: `key=value`, or `key=@path` for a file. A field without a
/// key, one that is not in use, and a file without a path are not.
pub open spec fn form_line(field: FieldView) -> Option<Seq<char>> {
    let path = match field.src {
        Some(source) => source_path(source),
        None => Seq::empty(),
    };
    match content(field.key) {
        Some(key) => if !in_use(field.disabled, field.enabled) {
            None
        } else if is_file_field(field) {
            if text::is_blank(path) {
                None
            } else {
                Some(
                    placeholders::normalized(key) + "=@"@ + placeholders::normalized(
                        text::trim(path),
                    ),
                )
            }
        } else {
            Some(
                placeholders::normalized(key) + "="@ + placeholders::normalized(
                    text::trim(optional_text(field.value)),
                ),
            )
        },
        None => None,
    }
}

/// The fields of a form, one per line.
pub open spec fn form_text(fields: Seq<FieldView>) -> Seq<char> {
    text::join(fields.filter_map(|field: FieldView| form_line(field)), "\n"@)
}

fn render_form_line(field: &PostmanField) -> (r: Option<String>)
    ensures
        text::opt(r) == form_line(field@),
{
    match get_content(&field.key) {
        Some(key) => {
            if !is_in_use(field.disabled, field.enabled) {
                return None;
            }
            let is_file = match &field.field_type {
                Some(name) => eq_ignore_case(trimmed(name.as_str()).as_str(), "file"),
                None => false,
            };
            let key = normalize_postman_placeholders(key.as_str());
            if is_file {
                let path = match &field.src {
                    Some(source) => postman_file_src_to_string(source),
                    None => String::new(),
                };
                let path = trimmed(path.as_str());
                if path.as_str().is_empty() {
                    return None;
                }
                let path = normalize_postman_placeholders(path.as_str());
                return Some(concat3(key.as_str(), "=@", path.as_str()));
            }
            let value = get_optional_text(&field.value);
            let value = normalize_postman_placeholders(trimmed(value.as_str()).as_str());
            Some(concat3(key.as_str(), "=", value.as_str()))
        },
        None => None,
    }
}

pub fn render_postman_formdata_fields(fields: &Vec<PostmanField>) -> (r: String)
    ensures
        r@ == form_text(text::views(fields@)),
{
    let mut lines: Vec<String> = Vec::new();
    let ghost all = text::views(fields@);
    let ghost f = |field: FieldView| form_line(field);
    let mut i: usize = 0;
    assert(text::views(lines@) =~= all.take(0).filter_map(f));
    while i < fields.len()
        invariant
            i <= fields@.len(),
            all == text::views(fields@),
            f == (|field: FieldView| form_line(field)),
            text::views(lines@) == all.take(i as int).filter_map(f),
        decreases fields@.len() - i,
    {
        proof {
            all.lemma_filter_map_take_succ(f, i as int);
        }
        if let Some(line) = render_form_line(&fields[i]) {
            proof {
                text::lemma_views_push(lines@, line);
            }
            lines.push(line);
        }
        i += 1;
    }
    assert(all.take(all.len() as int) =~= all);
    joined(&lines, "\n")
}

/// The mode in which a part of a body is rendered: the one that the body states, else the one
/// that goes with the part.
pub open spec fn part_mode(body: BodyView, own: Seq<char>) -> Seq<char> {
    match body.mode {
        Some(mode) => text::ascii_lower(text::trim(mode)),
        None => own,
    }
}

/// The text of a body: its raw text, else the first of its parts that says anything.
pub open spec fn exported_body_text(body: BodyView) -> Seq<char> {
    let urlencoded = match body.urlencoded {
        Some(fields) => postman::payload_text(fields_tree(fields), part_mode(body, "urlencoded"@)),
        None => Seq::empty(),
    };
    let form = match body.formdata {
        Some(fields) => form_text(fields),
        None => Seq::empty(),
    };
    let formdata = match body.formdata {
        Some(fields) => postman::payload_text(fields_tree(fields), part_mode(body, "formdata"@)),
        None => Seq::empty(),
    };
    let file = match body.file {
        Some(file) => postman::payload_text(file, part_mode(body, "file"@)),
        None => Seq::empty(),
    };
    let graphql = match body.graphql {
        Some(graphql) => postman::payload_text(graphql_tree(graphql), part_mode(body, "graphql"@)),
        None => Seq::empty(),
    };
    match content(body.raw) {
        Some(raw) => placeholders::normalized(raw),
        None => if !text::is_blank(urlencoded) {
            urlencoded
        } else if !text::is_blank(form) {
            form
        } else if !text::is_blank(formdata) {
            formdata
        } else if !text::is_blank(file) {
            file
        } else if !text::is_blank(graphql) {
            graphql
        } else {
            Seq::empty()
        },
    }
}

/// The body of a request.
pub open spec fn exported_body(request: RequestView) -> Seq<char> {
    match request.body {
        Some(body) => exported_body_text(body),
        None => Seq::empty(),
    }
}

fn get_part_mode(body: &PostmanBody, own: &str) -> (r: String)
    ensures
        r@ == part_mode(body@, own@),
{
    match &body.mode {
        Some(mode) => to_ascii_lower(trimmed(mode.as_str()).as_str()),
        None => own.to_owned(),
    }
}

fn render_body(body: &PostmanBody) -> (r: String)
    ensures
        r@ == exported_body_text(body@),
{
    if let Some(raw) = get_content(&body.raw) {
        return normalize_postman_placeholders(raw.as_str());
    }
    assert(text::trim(Seq::<char>::empty()).len() == 0);
    if let Some(fields) = &body.urlencoded {
        let rendered = render_postman_body_payload(
            &fields_json(fields),
            get_part_mode(body, "urlencoded").as_str(),
        );
        if !blank(rendered.as_str()) {
            return rendered;
        }
    }
    if let Some(fields) = &body.formdata {
        let rendered = render_postman_formdata_fields(fields);
        if !blank(rendered.as_str()) {
            return rendered;
        }
        let rendered = render_postman_body_payload(
            &fields_json(fields),
            get_part_mode(body, "formdata").as_str(),
        );
        if !blank(rendered.as_str()) {
            return rendered;
        }
    }
    if let Some(file) = &body.file {
        let rendered = render_postman_body_payload(file, get_part_mode(body, "file").as_str());
        if !blank(rendered.as_str()) {
            return rendered;
        }
    }
    if let Some(graphql) = &body.graphql {
        let rendered = render_postman_body_payload(
            &graphql_json(graphql),
            get_part_mode(body, "graphql").as_str(),
        );
        if !blank(rendered.as_str()) {
            return rendered;
        }
    }
    String::new()
}

pub fn postman_request_body(request: &PostmanRequest) -> (r: String)
    ensures
        r@ == exported_body(request@),
{
    match &request.body {
        Some(body) => render_body(body),
        None => String::new(),
    }
}

// ---------------------------------------------------------------------------
// Endpoints
// ---------------------------------------------------------------------------

/// The endpoint that a request makes, but for its id; none where its URL is blank.
pub open spec fn exported_endpoint(
    name: Seq<char>,
    request: RequestView,
    collection: Seq<char>,
    folder_path: Seq<char>,
) -> Option<EndpointView> {
    match exported_url(request) {
        Some(url) => if text::is_blank(url) {
            None
        } else {
            Some(
                EndpointView {
                    id: Seq::empty(),
                    source_request_id: postman::or_empty(content(request.id)),
                    source_collection_id: Seq::empty(),
                    source_folder_id: Seq::empty(),
                    name,
                    collection,
                    folder_path,
                    method: postman::imported_method(request.method),
                    url: placeholders::normalized(url),
                    query_params: Seq::empty(),
                    headers: exported_headers(request),
                    body_mode: exported_body_mode(request),
                    body: exported_body(request),
                    scripts: Seq::empty(),
                },
            )
        },
        None => None,
    }
}

pub fn endpoint_from_postman_request(
    name: &str,
    request: &PostmanRequest,
    collection_name: &str,
    folder_path: &str,
) -> (r: Option<Endpoint>)
    ensures
        match r {
            Some(endpoint) => exported_endpoint(name@, request@, collection_name@, folder_path@)
                == Some(postman::anonymous(endpoint@)) && defaults::is_id(endpoint@.id, "ep"@),
            None => exported_endpoint(name@, request@, collection_name@, folder_path@) is None,
        },
{
    match postman_request_url(request) {
        Some(url) => {
            if blank(url.as_str()) {
                return None;
            }
            let mut endpoint = Endpoint::with_defaults(
                create_id("ep"),
                name,
                import_method(request.method.as_ref()).as_str(),
                normalize_postman_placeholders(url.as_str()).as_str(),
            );
            endpoint.source_request_id = text_or_empty(get_content(&request.id));
            endpoint.collection = collection_name.to_owned();
            endpoint.folder_path = folder_path.to_owned();
            endpoint.headers = postman_request_headers(request);
            endpoint.body_mode = postman_request_body_mode(request);
            endpoint.body = postman_request_body(request);
            Some(endpoint)
        },
        None => None,
    }
}

// ---------------------------------------------------------------------------
// Collections
// ---------------------------------------------------------------------------

/// An item of a collection: a request, a folder with items, or both.
pub struct PostmanCollectionItem {
    pub name: Option<String>,
    pub request: Option<PostmanRequest>,
    pub item: Option<Vec<PostmanCollectionItem>>,
}

/// A collection.
pub struct PostmanCollectionExport {
    /// The name of the collection, where it has one.
    pub name: Option<String>,
    pub item: Option<Vec<PostmanCollectionItem>>,
}

/// The name of an item.
pub open spec fn item_name(item: PostmanCollectionItem) -> Seq<char> {
    postman::or_else(content(view_of(item.name)), "Imported Request"@)
}

/// The endpoint of an item.
pub open spec fn item_endpoint(
    item: PostmanCollectionItem,
    folders: Seq<Seq<char>>,
    collection: Seq<char>,
) -> Seq<EndpointView> {
    match item.request {
        Some(request) => match exported_endpoint(
            item_name(item),
            request@,
            collection,
            text::join(folders, " / "@),
        ) {
            Some(endpoint) => seq![endpoint],
            None => Seq::empty(),
        },
        None => Seq::empty(),
    }
}

/// The endpoints of the items and of the items in them, but for their ids.
pub open spec fn flattened(
    items: Seq<PostmanCollectionItem>,
    folders: Seq<Seq<char>>,
    collection: Seq<char>,
) -> Seq<EndpointView>
    decreases items,
{
    if items.len() == 0 {
        Seq::empty()
    } else {
        let last = items.last();
        flattened(items.drop_last(), folders, collection) + item_endpoint(
            last,
            folders,
            collection,
        ) + (match last.item {
            Some(children) => flattened(children@, folders.push(item_name(last)), collection),
            None => Seq::empty(),
        })
    }
}

/// Whether the endpoints are the anonymous ones under fresh ids.
pub open spec fn all_fresh(endpoints: Seq<EndpointView>, wanted: Seq<EndpointView>) -> bool {
    endpoints.len() == wanted.len() && forall|i: int|
        0 <= i < wanted.len() ==> postman::is_fresh(#[trigger] endpoints[i], wanted[i])
}

/// Whether fresh endpoints were appended.
pub open spec fn appended(
    before: Seq<EndpointView>,
    after: Seq<EndpointView>,
    wanted: Seq<EndpointView>,
) -> bool {
    before.is_prefix_of(after) && all_fresh(after.skip(before.len() as int), wanted)
}

pub proof fn lemma_appended_twice(
    first: Seq<EndpointView>,
    second: Seq<EndpointView>,
    third: Seq<EndpointView>,
    a: Seq<EndpointView>,
    b: Seq<EndpointView>,
)
    requires
        appended(first, second, a),
        appended(second, third, b),
    ensures
        appended(first, third, a + b),
{
    let wanted = a + b;
    let n = first.len() as int;
    assert(first =~= second.subrange(0, n));
    assert(second =~= third.subrange(0, second.len() as int));
    assert(first =~= third.subrange(0, n));
    let rest = third.skip(n);
    assert forall|i: int| 0 <= i < wanted.len() implies postman::is_fresh(
        #[trigger] rest[i],
        wanted[i],
    ) by {
        if i < a.len() {
            assert(second.skip(n)[i] == second[n + i]);
            assert(third[n + i] == second[n + i]);
        } else {
            assert(third.skip(second.len() as int)[i - a.len()] == third[n + i]);
        }
    }
}

pub proof fn lemma_appended_one(
    before: Seq<EndpointView>,
    endpoint: EndpointView,
    wanted: EndpointView,
)
    requires
        postman::is_fresh(endpoint, wanted),
    ensures
        appended(before, before.push(endpoint), seq![wanted]),
{
    assert(before =~= before.push(endpoint).subrange(0, before.len() as int));
    assert(before.push(endpoint).skip(before.len() as int) =~= seq![endpoint]);
}

pub proof fn lemma_appended_none(before: Seq<EndpointView>)
    ensures
        appended(before, before, Seq::empty()),
{
    assert(before =~= before.subrange(0, before.len() as int));
}

fn get_item_name(item: &PostmanCollectionItem) -> (r: String)
    ensures
        r@ == item_name(*item),
{
    text_or(get_content(&item.name), "Imported Request")
}

fn add_item_endpoint(
    item: &PostmanCollectionItem,
    folder_parts: &Vec<String>,
    collection_name: &str,
    output: &mut Vec<Endpoint>,
)
    ensures
        appended(
            text::views(old(output)@),
            text::views(final(output)@),
            item_endpoint(*item, text::views(folder_parts@), collection_name@),
        ),
{
    let ghost before = text::views(output@);
    if let Some(request) = &item.request {
        if let Some(endpoint) = endpoint_from_postman_request(
            get_item_name(item).as_str(),
            request,
            collection_name,
            joined(folder_parts, " / ").as_str(),
        ) {
            proof {
                text::lemma_views_push(output@, endpoint);
                lemma_appended_one(before, endpoint@, postman::anonymous(endpoint@));
            }
            output.push(endpoint);
            return;
        }
    }
    proof {
        lemma_appended_none(before);
    }
}

/// Appends the endpoints of the items and of the items in them.
pub fn flatten_postman_collection_items(
    items: &Vec<PostmanCollectionItem>,
    folder_parts: &Vec<String>,
    collection_name: &str,
    output: &mut Vec<Endpoint>,
)
    ensures
        appended(
            text::views(old(output)@),
            text::views(final(output)@),
            flattened(items@, text::views(folder_parts@), collection_name@),
        ),
    decreases items,
{
    let ghost start = text::views(output@);
    let ghost folders = text::views(folder_parts@);
    let mut i: usize = 0;
    proof {
        lemma_appended_none(start);
    }
    while i < items.len()
        invariant
            i <= items@.len(),
            folders == text::views(folder_parts@),
            appended(
                start,
                text::views(output@),
                flattened(items@.take(i as int), folders, collection_name@),
            ),
        decreases items@.len() - i,
    {
        let ghost first = text::views(output@);
        let ghost item = items@[i as int];
        let ghost done = flattened(items@.take(i as int), folders, collection_name@);
        add_item_endpoint(&items[i], folder_parts, collection_name, output);
        let ghost second = text::views(output@);
        let ghost own = item_endpoint(item, folders, collection_name@);
        proof {
            assert(items@.take(i + 1).drop_last() =~= items@.take(i as int));
            lemma_appended_twice(start, first, second, done, own);
        }
        match &items[i].item {
            Some(children) => {
                let name = get_item_name(&items[i]);
                let mut parts = folder_parts.clone();
                assert(parts@ =~= folder_parts@);
                proof {
                    text::lemma_views_push(parts@, name);
                    assert(decreases_to!(items@ => items@[i as int]));
                    assert(decreases_to!(item => item.item));
                    assert(decreases_to!(item.item => item.item->0));
                }
                parts.push(name);
                flatten_postman_collection_items(children, &parts, collection_name, output);
                proof {
                    lemma_appended_twice(
                        start,
                        second,
                        text::views(output@),
                        done + own,
                        flattened(children@, folders.push(name@), collection_name@),
                    );
                }
            },
            None => {
                assert(done + own + Seq::<EndpointView>::empty() =~= done + own);
            },
        }
        i += 1;
    }
    assert(items@.take(items@.len() as int) =~= items@);
}

/// The endpoints of a collection, but for their ids.
pub open spec fn collection_endpoints(export: PostmanCollectionExport) -> Seq<EndpointView> {
    match export.item {
        Some(items) => flattened(
            items@,
            Seq::empty(),
            postman::or_else(content(view_of(export.name)), "Imported Collection"@),
        ),
        None => Seq::empty(),
    }
}

/// The endpoints of a collection, where it has any.
pub fn parse_postman_collection(export: &PostmanCollectionExport) -> (r: Option<Vec<Endpoint>>)
    ensures
        match r {
            Some(endpoints) => endpoints@.len() > 0 && all_fresh(
                text::views(endpoints@),
                collection_endpoints(*export),
            ),
            None => collection_endpoints(*export).len() == 0,
        },
{
    match &export.item {
        Some(items) => {
            let name = text_or(get_content(&export.name), "Imported Collection");
            let mut endpoints: Vec<Endpoint> = Vec::new();
            let none: Vec<String> = Vec::new();
            assert(text::views(none@) =~= Seq::empty());
            flatten_postman_collection_items(items, &none, name.as_str(), &mut endpoints);
            proof {
                let all = text::views(endpoints@);
                assert(all.skip(0) =~= all);
            }
            if endpoints.len() == 0 {
                None
            } else {
                Some(endpoints)
            }
        },
        None => None,
    }
}

// ---------------------------------------------------------------------------
// Environments
// ---------------------------------------------------------------------------

/// An environment that was found.
#[derive(Debug, PartialEq, Eq)]
pub struct ImportedEnvironment {
    pub name: String,
    pub variables: Vec<KeyValue>,
}

#[verifier::ext_equal]
pub struct ImportedEnvironmentView {
    pub name: Seq<char>,
    pub variables: Pairs,
}

impl View for ImportedEnvironment {
    type V = ImportedEnvironmentView;

    open spec fn view(&self) -> ImportedEnvironmentView {
        ImportedEnvironmentView { name: self.name@, variables: text::views(self.variables@) }
    }
}

/// A variable of an exported environment.
pub struct PostmanEnvironmentValue {
    pub key: Option<String>,
    pub value: Option<Json>,
    pub enabled: Option<bool>,
}

/// An exported environment.
pub struct PostmanEnvironmentExport {
    pub name: Option<String>,
    pub values: Option<Vec<PostmanEnvironmentValue>>,
}

/// The variable that a value states: not one that is switched off or has no name.
pub open spec fn exported_variable(value: PostmanEnvironmentValue) -> Option<
    (Seq<char>, Seq<char>),
> {
    match content(view_of(value.key)) {
        Some(key) => if value.enabled == Some(false) {
            None
        } else {
            Some((key, placeholders::normalized(optional_text(view_of(value.value)))))
        },
        None => None,
    }
}

/// The variables that the values state.
pub open spec fn exported_variables(values: Seq<PostmanEnvironmentValue>) -> Pairs {
    values.filter_map(|value: PostmanEnvironmentValue| exported_variable(value))
}

/// The environment, where it has variables. It has the name of its file where it has none of its
/// own.
pub open spec fn exported_environment(
    export: PostmanEnvironmentExport,
    file_stem: Option<Seq<char>>,
) -> Option<ImportedEnvironmentView> {
    match export.values {
        Some(values) => if exported_variables(values@).len() == 0 {
            None
        } else {
            Some(
                ImportedEnvironmentView {
                    name: postman::or_else(
                        content(view_of(export.name)),
                        postman::or_else(file_stem, "imported-environment"@),
                    ),
                    variables: exported_variables(values@),
                },
            )
        },
        None => None,
    }
}

fn get_exported_variables(values: &Vec<PostmanEnvironmentValue>) -> (r: Vec<KeyValue>)
    ensures
        text::views(r@) == exported_variables(values@),
{
    let mut r: Vec<KeyValue> = Vec::new();
    let ghost f = |value: PostmanEnvironmentValue| exported_variable(value);
    let mut i: usize = 0;
    assert(text::views(r@) =~= values@.take(0).filter_map(f));
    while i < values.len()
        invariant
            i <= values@.len(),
            f == (|value: PostmanEnvironmentValue| exported_variable(value)),
            text::views(r@) == values@.take(i as int).filter_map(f),
        decreases values@.len() - i,
    {
        proof {
            values@.lemma_filter_map_take_succ(f, i as int);
        }
        let enabled = match values[i].enabled {
            Some(flag) => flag,
            None => true,
        };
        if enabled {
            if let Some(key) = get_content(&values[i].key) {
                let value = get_optional_text(&values[i].value);
                let variable = KeyValue {
                    key,
                    value: normalize_postman_placeholders(value.as_str()),
                };
                proof {
                    text::lemma_views_push(r@, variable);
                }
                r.push(variable);
            }
        }
        i += 1;
    }
    assert(values@.take(values@.len() as int) =~= values@);
    r
}

pub fn parse_postman_environment(
    export: &PostmanEnvironmentExport,
    file_stem: Option<String>,
) -> (r: Option<ImportedEnvironment>)
    ensures
        view_of(r) == exported_environment(*export, text::opt(file_stem)),
{
    match &export.values {
        Some(values) => {
            let variables = get_exported_variables(values);
            if variables.len() == 0 {
                return None;
            }
            let other = text_or(file_stem, "imported-environment");
            let name = text_or(get_content(&export.name), other.as_str());
            Some(ImportedEnvironment { name, variables })
        },
        None => None,
    }
}

// ---------------------------------------------------------------------------
// Requests in JSON
// ---------------------------------------------------------------------------

/// Whether a value can stand for a structure of `count` members: a record, or a list of as many
/// values.
pub open spec fn is_structure(value: JsonTree, count: nat) -> bool {
    match value {
        JsonTree::Record(fields) => true,
        JsonTree::List(items) => items.len() == count,
        _ => false,
    }
}

/// A member of a structure: by its name in a record, by its place in a list.
pub open spec fn member(value: JsonTree, name: Seq<char>, place: int) -> Option<JsonTree> {
    match value {
        JsonTree::Record(fields) => json::field(fields, name),
        JsonTree::List(items) => if 0 <= place < items.len() {
            Some(items[place])
        } else {
            None
        },
        _ => None,
    }
}

fn is_structure_of(value: &Json, count: usize) -> (r: bool)
    ensures
        r == is_structure(value@, count as nat),
{
    proof {
        json::lemma_tree(*value);
    }
    match value {
        Json::Record(_) => true,
        Json::List(items) => items.len() == count,
        _ => false,
    }
}

fn get_member<'a>(value: &'a Json, name: &str, place: usize) -> (r: Option<&'a Json>)
    ensures
        match r {
            Some(found) => member(value@, name@, place as int) == Some(found@),
            None => member(value@, name@, place as int) is None,
        },
{
    proof {
        json::lemma_tree(*value);
    }
    match value {
        Json::Record(entries) => json::get(entries, name),
        Json::List(items) => if place < items.len() {
            assert(text::views(items@)[place as int] == items@[place as int]@);
            Some(&items[place])
        } else {
            None
        },
        _ => None,
    }
}

/// What an optional value says.
pub open spec fn tree_of(value: Option<&Json>) -> Option<JsonTree> {
    match value {
        Some(value) => Some(value@),
        None => None,
    }
}

/// An optional text: `None` where the value is not one.
pub open spec fn decoded_text(value: Option<JsonTree>) -> Option<Option<Seq<char>>> {
    match value {
        None => Some(None),
        Some(JsonTree::Null) => Some(None),
        Some(JsonTree::Text(content)) => Some(Some(content)),
        _ => None,
    }
}

fn decode_text(value: Option<&Json>) -> (r: Option<Option<String>>)
    ensures
        match r {
            Some(found) => decoded_text(tree_of(value)) == Some(view_of(found)),
            None => decoded_text(tree_of(value)) is None,
        },
{
    match value {
        None => Some(None),
        Some(Json::Null) => Some(None),
        Some(Json::Text(content)) => Some(Some(content.clone())),
        _ => None,
    }
}

/// An optional truth value: `None` where the value is not one.
pub open spec fn decoded_bool(value: Option<JsonTree>) -> Option<Option<bool>> {
    match value {
        None => Some(None),
        Some(JsonTree::Null) => Some(None),
        Some(JsonTree::Bool(flag)) => Some(Some(flag)),
        _ => None,
    }
}

fn decode_bool(value: Option<&Json>) -> (r: Option<Option<bool>>)
    ensures
        r == decoded_bool(tree_of(value)),
{
    match value {
        None => Some(None),
        Some(Json::Null) => Some(None),
        Some(Json::Bool(flag)) => Some(Some(*flag)),
        _ => None,
    }
}

/// An optional value of any kind; null counts as none.
pub open spec fn decoded_value(value: Option<JsonTree>) -> Option<JsonTree> {
    match value {
        Some(JsonTree::Null) => None,
        _ => value,
    }
}

fn decode_value(value: Option<&Json>) -> (r: Option<Json>)
    ensures
        view_of(r) == decoded_value(tree_of(value)),
{
    match value {
        None => None,
        Some(Json::Null) => None,
        Some(value) => Some(value.copy()),
    }
}

/// A header that a value states.
pub open spec fn decoded_header(value: JsonTree) -> Option<HeaderView> {
    let key = decoded_text(member(value, "key"@, 0));
    let disabled = decoded_bool(member(value, "disabled"@, 2));
    let enabled = decoded_bool(member(value, "enabled"@, 3));
    if is_structure(value, 4) && key is Some && disabled is Some && enabled is Some {
        Some(
            HeaderView {
                key: key->0,
                value: decoded_value(member(value, "value"@, 1)),
                disabled: disabled->0,
                enabled: enabled->0,
            },
        )
    } else {
        None
    }
}

fn decode_header(value: &Json) -> (r: Option<PostmanHeader>)
    ensures
        view_of(r) == decoded_header(value@),
{
    if !is_structure_of(value, 4) {
        return None;
    }
    match (
        decode_text(get_member(value, "key", 0)),
        decode_bool(get_member(value, "disabled", 2)),
        decode_bool(get_member(value, "enabled", 3)),
    ) {
        (Some(key), Some(disabled), Some(enabled)) => Some(
            PostmanHeader {
                key,
                value: decode_value(get_member(value, "value", 1)),
                disabled,
                enabled,
            },
        ),
        _ => None,
    }
}

/// A field that a value states.
pub open spec fn decoded_field(value: JsonTree) -> Option<FieldView> {
    let key = decoded_text(member(value, "key"@, 0));
    let field_type = decoded_text(member(value, "type"@, 2));
    let disabled = decoded_bool(member(value, "disabled"@, 4));
    let enabled = decoded_bool(member(value, "enabled"@, 5));
    if is_structure(value, 6) && key is Some && field_type is Some && disabled is Some
        && enabled is Some {
        Some(
            FieldView {
                key: key->0,
                value: decoded_value(member(value, "value"@, 1)),
                field_type: field_type->0,
                src: decoded_value(member(value, "src"@, 3)),
                disabled: disabled->0,
                enabled: enabled->0,
            },
        )
    } else {
        None
    }
}

fn decode_field(value: &Json) -> (r: Option<PostmanField>)
    ensures
        view_of(r) == decoded_field(value@),
{
    if !is_structure_of(value, 6) {
        return None;
    }
    match (
        decode_text(get_member(value, "key", 0)),
        decode_text(get_member(value, "type", 2)),
        decode_bool(get_member(value, "disabled", 4)),
        decode_bool(get_member(value, "enabled", 5)),
    ) {
        (Some(key), Some(field_type), Some(disabled), Some(enabled)) => Some(
            PostmanField {
                key,
                value: decode_value(get_member(value, "value", 1)),
                field_type,
                src: decode_value(get_member(value, "src", 3)),
                disabled,
                enabled,
            },
        ),
        _ => None,
    }
}

/// The headers that all values of a list state; `None` where one of them does not.
pub open spec fn decoded_headers(items: Seq<JsonTree>) -> Option<Seq<HeaderView>>
    decreases items.len(),
{
    if items.len() == 0 {
        Some(Seq::empty())
    } else {
        match (decoded_headers(items.drop_last()), decoded_header(items.last())) {
            (Some(rest), Some(header)) => Some(rest.push(header)),
            _ => None,
        }
    }
}

/// The fields that all values of a list state; `None` where one of them does not.
pub open spec fn decoded_fields(items: Seq<JsonTree>) -> Option<Seq<FieldView>>
    decreases items.len(),
{
    if items.len() == 0 {
        Some(Seq::empty())
    } else {
        match (decoded_fields(items.drop_last()), decoded_field(items.last())) {
            (Some(rest), Some(field)) => Some(rest.push(field)),
            _ => None,
        }
    }
}

proof fn lemma_undecoded_headers(items: Seq<JsonTree>, n: int)
    requires
        0 <= n <= items.len(),
        decoded_headers(items.take(n)) is None,
    ensures
        decoded_headers(items) is None,
    decreases items.len() - n,
{
    if n < items.len() {
        assert(items.take(n + 1).drop_last() =~= items.take(n));
        lemma_undecoded_headers(items, n + 1);
    } else {
        assert(items.take(n) =~= items);
    }
}

proof fn lemma_undecoded_fields(items: Seq<JsonTree>, n: int)
    requires
        0 <= n <= items.len(),
        decoded_fields(items.take(n)) is None,
    ensures
        decoded_fields(items) is None,
    decreases items.len() - n,
{
    if n < items.len() {
        assert(items.take(n + 1).drop_last() =~= items.take(n));
        lemma_undecoded_fields(items, n + 1);
    } else {
        assert(items.take(n) =~= items);
    }
}

/// An optional list of headers.
pub open spec fn decoded_header_list(value: Option<JsonTree>) -> Option<Option<Seq<HeaderView>>> {
    match value {
        None => Some(None),
        Some(JsonTree::Null) => Some(None),
        Some(JsonTree::List(items)) => match decoded_headers(items) {
            Some(headers) => Some(Some(headers)),
            None => None,
        },
        _ => None,
    }
}

fn decode_headers(items: &Vec<Json>) -> (r: Option<Vec<PostmanHeader>>)
    ensures
        views_of(r) == decoded_headers(text::views(items@)),
{
    let ghost all = text::views(items@);
    let mut headers: Vec<PostmanHeader> = Vec::new();
    let mut i: usize = 0;
    assert(text::views(headers@) =~= Seq::empty());
    while i < items.len()
        invariant
            i <= items@.len(),
            all == text::views(items@),
            decoded_headers(all.take(i as int)) == Some(text::views(headers@)),
        decreases items@.len() - i,
    {
        proof {
            assert(all.take(i + 1).drop_last() =~= all.take(i as int));
        }
        match decode_header(&items[i]) {
            Some(header) => {
                proof {
                    text::lemma_views_push(headers@, header);
                }
                headers.push(header);
            },
            None => {
                proof {
                    lemma_undecoded_headers(all, i + 1);
                }
                return None;
            },
        }
        i += 1;
    }
    assert(all.take(all.len() as int) =~= all);
    Some(headers)
}

fn decode_header_list(value: Option<&Json>) -> (r: Option<Option<Vec<PostmanHeader>>>)
    ensures
        match r {
            Some(found) => decoded_header_list(tree_of(value)) == Some(views_of(found)),
            None => decoded_header_list(tree_of(value)) is None,
        },
{
    match value {
        None => Some(None),
        Some(value) => {
            proof {
                json::lemma_tree(*value);
            }
            match value {
                Json::Null => Some(None),
                Json::List(items) => match decode_headers(items) {
                    Some(headers) => Some(Some(headers)),
                    None => None,
                },
                _ => None,
            }
        },
    }
}

/// An optional list of fields.
pub open spec fn decoded_field_list(value: Option<JsonTree>) -> Option<Option<Seq<FieldView>>> {
    match value {
        None => Some(None),
        Some(JsonTree::Null) => Some(None),
        Some(JsonTree::List(items)) => match decoded_fields(items) {
            Some(fields) => Some(Some(fields)),
            None => None,
        },
        _ => None,
    }
}

fn decode_fields(items: &Vec<Json>) -> (r: Option<Vec<PostmanField>>)
    ensures
        views_of(r) == decoded_fields(text::views(items@)),
{
    let ghost all = text::views(items@);
    let mut fields: Vec<PostmanField> = Vec::new();
    let mut i: usize = 0;
    assert(text::views(fields@) =~= Seq::empty());
    while i < items.len()
        invariant
            i <= items@.len(),
            all == text::views(items@),
            decoded_fields(all.take(i as int)) == Some(text::views(fields@)),
        decreases items@.len() - i,
    {
        proof {
            assert(all.take(i + 1).drop_last() =~= all.take(i as int));
        }
        match decode_field(&items[i]) {
            Some(field) => {
                proof {
                    text::lemma_views_push(fields@, field);
                }
                fields.push(field);
            },
            None => {
                proof {
                    lemma_undecoded_fields(all, i + 1);
                }
                return None;
            },
        }
        i += 1;
    }
    assert(all.take(all.len() as int) =~= all);
    Some(fields)
}

fn decode_field_list(value: Option<&Json>) -> (r: Option<Option<Vec<PostmanField>>>)
    ensures
        match r {
            Some(found) => decoded_field_list(tree_of(value)) == Some(views_of(found)),
            None => decoded_field_list(tree_of(value)) is None,
        },
{
    match value {
        None => Some(None),
        Some(value) => {
            proof {
                json::lemma_tree(*value);
            }
            match value {
                Json::Null => Some(None),
                Json::List(items) => match decode_fields(items) {
                    Some(fields) => Some(Some(fields)),
                    None => None,
                },
                _ => None,
            }
        },
    }
}

/// An optional GraphQL body.
pub open spec fn decoded_graphql(value: Option<JsonTree>) -> Option<Option<GraphqlView>> {
    match value {
        None => Some(None),
        Some(JsonTree::Null) => Some(None),
        Some(value) => {
            let query = decoded_text(member(value, "query"@, 0));
            if is_structure(value, 2) && query is Some {
                Some(
                    Some(
                        GraphqlView {
                            query: query->0,
                            variables: decoded_value(member(value, "variables"@, 1)),
                        },
                    ),
                )
            } else {
                None
            }
        },
    }
}

fn decode_graphql(value: Option<&Json>) -> (r: Option<Option<PostmanGraphqlBody>>)
    ensures
        match r {
            Some(found) => decoded_graphql(tree_of(value)) == Some(view_of(found)),
            None => decoded_graphql(tree_of(value)) is None,
        },
{
    match value {
        None => Some(None),
        Some(Json::Null) => Some(None),
        Some(value) => {
            if !is_structure_of(value, 2) {
                return None;
            }
            match decode_text(get_member(value, "query", 0)) {
                Some(query) => Some(
                    Some(
                        PostmanGraphqlBody {
                            query,
                            variables: decode_value(get_member(value, "variables", 1)),
                        },
                    ),
                ),
                None => None,
            }
        },
    }
}

/// An optional body.
pub open spec fn decoded_body(value: Option<JsonTree>) -> Option<Option<BodyView>> {
    match value {
        None => Some(None),
        Some(JsonTree::Null) => Some(None),
        Some(value) => {
            let mode = decoded_text(member(value, "mode"@, 0));
            let raw = decoded_text(member(value, "raw"@, 1));
            let urlencoded = decoded_field_list(member(value, "urlencoded"@, 2));
            let formdata = decoded_field_list(member(value, "formdata"@, 3));
            let graphql = decoded_graphql(member(value, "graphql"@, 5));
            if is_structure(value, 6) && mode is Some && raw is Some && urlencoded is Some
                && formdata is Some && graphql is Some {
                Some(
                    Some(
                        BodyView {
                            mode: mode->0,
                            raw: raw->0,
                            urlencoded: urlencoded->0,
                            formdata: formdata->0,
                            file: decoded_value(member(value, "file"@, 4)),
                            graphql: graphql->0,
                        },
                    ),
                )
            } else {
                None
            }
        },
    }
}

fn decode_body(value: Option<&Json>) -> (r: Option<Option<PostmanBody>>)
    ensures
        match r {
            Some(found) => decoded_body(tree_of(value)) == Some(view_of(found)),
            None => decoded_body(tree_of(value)) is None,
        },
{
    match value {
        None => Some(None),
        Some(Json::Null) => Some(None),
        Some(value) => {
            if !is_structure_of(value, 6) {
                return None;
            }
            match (
                decode_text(get_member(value, "mode", 0)),
                decode_text(get_member(value, "raw", 1)),
                decode_field_list(get_member(value, "urlencoded", 2)),
                decode_field_list(get_member(value, "formdata", 3)),
                decode_graphql(get_member(value, "graphql", 5)),
            ) {
                (Some(mode), Some(raw), Some(urlencoded), Some(formdata), Some(graphql)) => Some(
                    Some(
                        PostmanBody {
                            mode,
                            raw,
                            urlencoded,
                            formdata,
                            file: decode_value(get_member(value, "file", 4)),
                            graphql,
                        },
                    ),
                ),
                _ => None,
            }
        },
    }
}

/// An optional URL: a text, or a structure.
pub open spec fn decoded_url(value: Option<JsonTree>) -> Option<Option<UrlView>> {
    match value {
        None => Some(None),
        Some(JsonTree::Null) => Some(None),
        Some(JsonTree::Text(url)) => Some(Some(UrlView::RawString(url))),
        Some(value) => {
            let raw = decoded_text(member(value, "raw"@, 0));
            let protocol = decoded_text(member(value, "protocol"@, 1));
            let port = decoded_text(member(value, "port"@, 4));
            let query = decoded_field_list(member(value, "query"@, 5));
            if is_structure(value, 6) && raw is Some && protocol is Some && port is Some
                && query is Some {
                Some(
                    Some(
                        UrlView::UrlObject(
                            UrlObjectView {
                                raw: raw->0,
                                protocol: protocol->0,
                                host: decoded_value(member(value, "host"@, 2)),
                                path: decoded_value(member(value, "path"@, 3)),
                                port: port->0,
                                query: query->0,
                            },
                        ),
                    ),
                )
            } else {
                None
            }
        },
    }
}

fn decode_url(value: Option<&Json>) -> (r: Option<Option<PostmanUrl>>)
    ensures
        match r {
            Some(found) => decoded_url(tree_of(value)) == Some(view_of(found)),
            None => decoded_url(tree_of(value)) is None,
        },
{
    match value {
        None => Some(None),
        Some(Json::Null) => Some(None),
        Some(Json::Text(url)) => Some(Some(PostmanUrl::RawString(url.clone()))),
        Some(value) => {
            if !is_structure_of(value, 6) {
                return None;
            }
            match (
                decode_text(get_member(value, "raw", 0)),
                decode_text(get_member(value, "protocol", 1)),
                decode_text(get_member(value, "port", 4)),
                decode_field_list(get_member(value, "query", 5)),
            ) {
                (Some(raw), Some(protocol), Some(port), Some(query)) => Some(
                    Some(
                        PostmanUrl::UrlObject(
                            PostmanUrlObject {
                                raw,
                                protocol,
                                host: decode_value(get_member(value, "host", 2)),
                                path: decode_value(get_member(value, "path", 3)),
                                port,
                                query,
                            },
                        ),
                    ),
                ),
                _ => None,
            }
        },
    }
}

/// The request that a value states. Members that are missing or null are left out; a member of
/// the wrong kind makes the whole unreadable.
pub open spec fn decoded_request(value: JsonTree) -> Option<RequestView> {
    let id = decoded_text(member(value, "id"@, 0));
    let method = decoded_text(member(value, "method"@, 1));
    let header = decoded_header_list(member(value, "header"@, 2));
    let body = decoded_body(member(value, "body"@, 3));
    let url = decoded_url(member(value, "url"@, 4));
    if is_structure(value, 6) && id is Some && method is Some && header is Some && body is Some
        && url is Some {
        Some(
            RequestView {
                id: id->0,
                method: method->0,
                header: header->0,
                body: body->0,
                url: url->0,
                auth: decoded_value(member(value, "auth"@, 5)),
            },
        )
    } else {
        None
    }
}

pub fn postman_request_from_json(value: &Json) -> (r: Option<PostmanRequest>)
    ensures
        view_of(r) == decoded_request(value@),
{
    if !is_structure_of(value, 6) {
        return None;
    }
    match (
        decode_text(get_member(value, "id", 0)),
        decode_text(get_member(value, "method", 1)),
        decode_header_list(get_member(value, "header", 2)),
        decode_body(get_member(value, "body", 3)),
        decode_url(get_member(value, "url", 4)),
    ) {
        (Some(id), Some(method), Some(header), Some(body), Some(url)) => Some(
            PostmanRequest {
                id,
                method,
                header,
                body,
                url,
                auth: decode_value(get_member(value, "auth", 5)),
            },
        ),
        _ => None,
    }
}

// ---------------------------------------------------------------------------
// Laws
// ---------------------------------------------------------------------------

/// Whether an item is reached from others through folders of these names, the outermost first.
pub open spec fn is_reached(
    items: Seq<PostmanCollectionItem>,
    names: Seq<Seq<char>>,
    item: PostmanCollectionItem,
) -> bool
    decreases names.len(),
{
    if names.len() == 0 {
        items.contains(item)
    } else {
        exists|i: int|
            0 <= i < items.len() && is_folder_of(#[trigger] items[i], names[0]) && is_reached(
                items[i].item->0@,
                names.drop_first(),
                item,
            )
    }
}

/// Whether an item is a folder of that name.
pub open spec fn is_folder_of(item: PostmanCollectionItem, name: Seq<char>) -> bool {
    item.item is Some && (item.name matches Some(own) && own@ == name)
}

/// Whether a request has a URL as a text, and no authentication.
pub open spec fn has_url(request: RequestView, url: Seq<char>) -> bool {
    &&& request.url == Some(UrlView::RawString(url))
    &&& !text::is_blank(url)
    &&& request.auth is None
}

/// Whether an endpoint says what an exported request says: method, URL and headers.
pub open spec fn says_what_the_request_says(
    endpoint: EndpointView,
    request: RequestView,
    url: Seq<char>,
) -> bool {
    &&& endpoint.url == placeholders::normalized(text::trim(url))
    &&& match request.method {
        Some(method) => text::unicode_upper(text::trim(method)).len() > 0 ==> endpoint.method
            == text::unicode_upper(text::trim(method)),
        None => endpoint.method == "GET"@,
    }
    &&& match request.id {
        Some(id) => endpoint.source_request_id == text::trim(id),
        None => endpoint.source_request_id.len() == 0,
    }
    &&& endpoint.headers == exported_headers(request)
    &&& endpoint.body == exported_body(request)
    &&& endpoint.body_mode == exported_body_mode(request)
}

/// A request of a collection is imported in its place: for each one there is an endpoint in the
/// collection whose folder path names the folders through which it is reached, all of them and in
/// order, however deep it lies.
pub proof fn law_folders_of_a_request_are_kept(
    export: PostmanCollectionExport,
    names: Seq<Seq<char>>,
    item: PostmanCollectionItem,
    url: Seq<char>,
)
    requires
        export.item is Some,
        is_reached(export.item->0@, names, item),
        forall|i: int| 0 <= i < names.len() ==> folders::is_folder_name(#[trigger] names[i]),
        item.request is Some,
        has_url(item.request->0@, url),
    ensures
        exists|k: int|
            0 <= k < collection_endpoints(export).len() && {
                let endpoint = #[trigger] collection_endpoints(export)[k];
                &&& folders::folder_names(endpoint.folder_path) == names
                &&& says_what_the_request_says(endpoint, item.request->0@, url)
                &&& match item.name {
                    Some(name) => !text::is_blank(name@) ==> endpoint.name == text::trim(name@),
                    None => endpoint.name == "Imported Request"@,
                }
                &&& match export.name {
                    Some(name) => !text::is_blank(name@) ==> endpoint.collection == text::trim(
                        name@,
                    ),
                    None => endpoint.collection == "Imported Collection"@,
                }
            },
{
    let items = export.item->0@;
    let collection = postman::or_else(content(view_of(export.name)), "Imported Collection"@);
    let request = item.request->0@;
    let path = text::join(names, " / "@);
    lemma_raw_url(request, url);
    let endpoint = exported_endpoint(item_name(item), request, collection, path)->0;
    assert(Seq::<Seq<char>>::empty() + names =~= names);
    lemma_reached_is_flattened(items, Seq::empty(), names, item, collection, endpoint);
    folders::law_joined_folders_are_found(names);
    let all = collection_endpoints(export);
    let k = choose|k: int| 0 <= k < all.len() && all[k] == endpoint;
    assert(all[k] == endpoint);
}

proof fn lemma_raw_url(request: RequestView, url: Seq<char>)
    requires
        has_url(request, url),
    ensures
        exported_url(request) == Some(text::trim(url)),
        !text::is_blank(text::trim(url)),
        request.id matches Some(id) ==> postman::or_empty(content(request.id)) == text::trim(id),
{
    text::lemma_trim_is_final(url);
    if let Some(id) = request.id {
        if text::is_blank(id) {
            assert(text::trim(id) =~= Seq::empty());
        }
    }
    assert(exported_query(request) =~= Seq::empty());
    assert(postman::pairs_text(exported_query(request), "&"@) =~= Seq::empty());
}

proof fn lemma_reached_is_flattened(
    items: Seq<PostmanCollectionItem>,
    around: Seq<Seq<char>>,
    names: Seq<Seq<char>>,
    item: PostmanCollectionItem,
    collection: Seq<char>,
    endpoint: EndpointView,
)
    requires
        is_reached(items, names, item),
        forall|i: int| 0 <= i < names.len() ==> folders::is_folder_name(#[trigger] names[i]),
        item.request is Some,
        exported_endpoint(
            item_name(item),
            item.request->0@,
            collection,
            text::join(around + names, " / "@),
        ) == Some(endpoint),
    ensures
        flattened(items, around, collection).contains(endpoint),
    decreases names.len(),
{
    if names.len() == 0 {
        assert(around + names =~= around);
        let i = choose|i: int| 0 <= i < items.len() && items[i] == item;
        lemma_own_is_flattened(items, around, collection, i, endpoint);
    } else {
        let i = choose|i: int|
            0 <= i < items.len() && is_folder_of(#[trigger] items[i], names[0]) && is_reached(
                items[i].item->0@,
                names.drop_first(),
                item,
            );
        let rest = names.drop_first();
        let children = items[i].item->0@;
        assert(folders::is_folder_name(names[0]));
        assert(item_name(items[i]) == names[0]);
        assert forall|j: int| 0 <= j < rest.len() implies folders::is_folder_name(
            #[trigger] rest[j],
        ) by {
            assert(rest[j] == names[j + 1]);
        }
        assert(around.push(names[0]) + rest =~= around + names);
        lemma_reached_is_flattened(
            children,
            around.push(names[0]),
            rest,
            item,
            collection,
            endpoint,
        );
        lemma_children_are_flattened(items, around, collection, i, endpoint);
    }
}

proof fn lemma_own_is_flattened(
    items: Seq<PostmanCollectionItem>,
    around: Seq<Seq<char>>,
    collection: Seq<char>,
    i: int,
    endpoint: EndpointView,
)
    requires
        0 <= i < items.len(),
        item_endpoint(items[i], around, collection) == seq![endpoint],
    ensures
        flattened(items, around, collection).contains(endpoint),
    decreases items.len(),
{
    let rest = items.drop_last();
    let before = flattened(rest, around, collection);
    let whole = flattened(items, around, collection);
    if i == rest.len() {
        assert(whole[before.len() as int] == endpoint);
    } else {
        assert(rest[i] == items[i]);
        lemma_own_is_flattened(rest, around, collection, i, endpoint);
        let k = choose|k: int| 0 <= k < before.len() && before[k] == endpoint;
        assert(whole[k] == endpoint);
    }
}

proof fn lemma_children_are_flattened(
    items: Seq<PostmanCollectionItem>,
    around: Seq<Seq<char>>,
    collection: Seq<char>,
    i: int,
    endpoint: EndpointView,
)
    requires
        0 <= i < items.len(),
        items[i].item is Some,
        flattened(items[i].item->0@, around.push(item_name(items[i])), collection).contains(
            endpoint,
        ),
    ensures
        flattened(items, around, collection).contains(endpoint),
    decreases items.len(),
{
    let rest = items.drop_last();
    let before = flattened(rest, around, collection);
    let whole = flattened(items, around, collection);
    if i == rest.len() {
        let inner = flattened(items[i].item->0@, around.push(item_name(items[i])), collection);
        let own = item_endpoint(items[i], around, collection);
        let k = choose|k: int| 0 <= k < inner.len() && inner[k] == endpoint;
        assert(items.last() == items[i]);
        assert(whole[before.len() + own.len() + k] == endpoint);
    } else {
        assert(rest[i] == items[i]);
        lemma_children_are_flattened(rest, around, collection, i, endpoint);
        let k = choose|k: int| 0 <= k < before.len() && before[k] == endpoint;
        assert(whole[k] == endpoint);
    }
}

/// Requests beside each other are imported one by one and in order, each once.
pub proof fn law_requests_are_imported_in_order(
    items: Seq<PostmanCollectionItem>,
    around: Seq<Seq<char>>,
    collection: Seq<char>,
    urls: Seq<Seq<char>>,
)
    requires
        items.len() == urls.len(),
        forall|i: int|
            0 <= i < items.len() ==> (#[trigger] items[i]).item is None && items[i].request is Some
                && has_url(items[i].request->0@, urls[i]),
    ensures
        flattened(items, around, collection).len() == items.len(),
        forall|i: int|
            0 <= i < items.len() ==> {
                let endpoint = flattened(items, around, collection)[i];
                &&& says_what_the_request_says(
                    endpoint,
                    (#[trigger] items[i]).request->0@,
                    urls[i],
                )
                &&& endpoint.collection == collection
                &&& items[i].name matches Some(name) ==> !text::is_blank(name@) ==> endpoint.name
                    == text::trim(name@)
            },
    decreases items.len(),
{
    if items.len() > 0 {
        let rest = items.drop_last();
        let fewer = urls.drop_last();
        assert forall|i: int| 0 <= i < rest.len() implies (#[trigger] rest[i]).item is None
            && rest[i].request is Some && has_url(rest[i].request->0@, fewer[i]) by {
            assert(rest[i] == items[i]);
        }
        law_requests_are_imported_in_order(rest, around, collection, fewer);
        let n = items.len() - 1;
        assert(items[n].item is None);
        assert(items.last() == items[n]);
        lemma_raw_url(items[n].request->0@, urls[n]);
        let before = flattened(rest, around, collection);
        let whole = flattened(items, around, collection);
        let own = item_endpoint(items[n], around, collection);
        assert(whole =~= before + own);
        assert forall|i: int| 0 <= i < items.len() implies {
            let endpoint = whole[i];
            &&& says_what_the_request_says(endpoint, (#[trigger] items[i]).request->0@, urls[i])
            &&& endpoint.collection == collection
            &&& items[i].name matches Some(name) ==> !text::is_blank(name@) ==> endpoint.name
                == text::trim(name@)
        } by {
            if i < n {
                assert(rest[i] == items[i]);
                assert(fewer[i] == urls[i]);
                assert(whole[i] == before[i]);
            } else {
                assert(whole[i] == own[0]);
            }
        }
    }
}

/// Whether the headers state the pairs as texts, one after the other, all of them in use.
pub open spec fn are_headers_of(headers: Seq<HeaderView>, pairs: Pairs) -> bool {
    &&& headers.len() == pairs.len()
    &&& forall|i: int|
        0 <= i < pairs.len() ==> headers[i] == (HeaderView {
            key: Some((#[trigger] pairs[i]).0),
            value: Some(JsonTree::Text(pairs[i].1)),
            disabled: None,
            enabled: None,
        }) && !text::is_blank(pairs[i].0)
}

/// Whether the fields state the pairs as texts, one after the other, all of them in use.
pub open spec fn are_fields_of(fields: Seq<FieldView>, pairs: Pairs) -> bool {
    &&& fields.len() == pairs.len()
    &&& forall|i: int|
        0 <= i < pairs.len() ==> fields[i] == (FieldView {
            key: Some((#[trigger] pairs[i]).0),
            value: Some(JsonTree::Text(pairs[i].1)),
            field_type: None,
            src: None,
            disabled: None,
            enabled: None,
        }) && !text::is_blank(pairs[i].0)
}

/// The headers of an exported request are those that it states, converted and in order; one that
/// is switched off is left out.
pub proof fn law_exported_headers_are_kept(
    request: RequestView,
    headers: Seq<HeaderView>,
    pairs: Pairs,
    off: HeaderView,
    rest: Seq<HeaderView>,
    more: Pairs,
)
    requires
        request.auth is None,
        are_headers_of(headers, pairs),
        are_headers_of(rest, more),
        off.disabled == Some(true) || off.enabled == Some(false),
    ensures
        request.header == Some(headers) ==> exported_headers(request) == postman::converted(pairs),
        request.header == Some(headers + seq![off] + rest) ==> exported_headers(request)
            == postman::converted(pairs) + postman::converted(more),
{
    let f = |header: HeaderView|
        stated_pair(header.key, header.value, header.disabled, header.enabled);
    lemma_listed_headers(headers, pairs);
    lemma_listed_headers(rest, more);
    text::lemma_filter_map_in_turn(headers + seq![off], rest, f);
    text::lemma_filter_map_in_turn(headers, seq![off], f);
    Seq::lemma_filter_map_singleton(off, f);
    assert(headers.filter_map(f) + Seq::<(Seq<char>, Seq<char>)>::empty() =~= headers.filter_map(
        f,
    ));
}

proof fn lemma_listed_headers(headers: Seq<HeaderView>, pairs: Pairs)
    requires
        are_headers_of(headers, pairs),
    ensures
        listed_headers(headers) == postman::converted(pairs),
{
    let f = |header: HeaderView|
        stated_pair(header.key, header.value, header.disabled, header.enabled);
    assert forall|i: int| 0 <= i < headers.len() implies f(#[trigger] headers[i]) == Some(
        postman::converted(pairs)[i],
    ) by {
        assert(!text::is_blank(pairs[i].0));
    }
    text::lemma_filter_map_of_all(headers, f);
    assert(headers.filter_map(f) =~= postman::converted(pairs));
}

/// The token of an exported request is sent in a header behind those that it states, where none
/// of these is `Authorization`.
pub proof fn law_exported_token_is_sent(
    request: RequestView,
    headers: Seq<HeaderView>,
    pairs: Pairs,
    auth: JsonTree,
    token: Seq<char>,
)
    requires
        request.header == Some(headers),
        are_headers_of(headers, pairs),
        request.auth == Some(auth),
        postman::has_setting(auth, "bearer"@, "token"@, token),
        !text::is_blank(token),
        forall|i: int|
            0 <= i < pairs.len() ==> text::ascii_lower(
                text::trim((#[trigger] postman::converted(pairs)[i]).0),
            ) != "authorization"@,
    ensures
        exported_headers(request) == postman::converted(pairs).push(
            ("Authorization"@, "Bearer "@ + placeholders::normalized(text::trim(token))),
        ),
{
    lemma_listed_headers(headers, pairs);
    postman::law_token_is_sent(auth, token);
    reveal_strlit("Authorization");
    reveal_strlit("authorization");
    assert(text::trim("Authorization"@) == "Authorization"@);
    assert(text::ascii_lower("Authorization"@) =~= "authorization"@);
    let sent = postman::auth_headers(auth);
    let stated = postman::converted(pairs);
    assert(sent.drop_last() =~= Seq::<(Seq<char>, Seq<char>)>::empty());
    reveal_with_fuel(merge::merged_headers, 2);
    assert("Authorization"@.len() > 0);
    if merge::has_header(stated, "authorization"@) {
        let i = choose|i: int|
            0 <= i < stated.len() && merge::header_name(#[trigger] stated[i]) == "authorization"@;
        assert(text::ascii_lower(text::trim(stated[i].0)) == "authorization"@);
    }
}

/// A body without parts.
pub open spec fn bare_body() -> BodyView {
    BodyView {
        mode: None,
        raw: None,
        urlencoded: None,
        formdata: None,
        file: None,
        graphql: None,
    }
}

/// The raw text of an exported body is the body, with its placeholders converted.
pub proof fn law_exported_raw_text_is_the_body(request: RequestView, body: BodyView, raw: Seq<char>)
    requires
        request.body == Some(body),
        body.raw == Some(raw),
        !text::is_blank(raw),
    ensures
        exported_body(request) == placeholders::normalized(text::trim(raw)),
        body == (BodyView { raw: Some(raw), ..bare_body() }) ==> exported_body_mode(request)
            == "raw"@,
        body.mode == Some("raw"@) ==> exported_body_mode(request) == "raw"@,
{
    reveal_strlit("raw");
    assert(text::trim("raw"@) == "raw"@);
    assert(text::ascii_lower("raw"@) =~= "raw"@);
    request_body::law_names_of_modes("raw"@, "raw"@);
}

/// The fields of an exported URL-encoded body or form are the fields of the body, converted and
/// in order.
pub proof fn law_exported_fields_are_the_fields_of_the_body(
    request: RequestView,
    fields: Seq<FieldView>,
    pairs: Pairs,
)
    requires
        are_fields_of(fields, pairs),
        postman::are_plain(pairs),
        pairs.len() > 0,
    ensures
        request.body == Some(BodyView { urlencoded: Some(fields), ..bare_body() }) || request.body
            == Some(
            BodyView { mode: Some("urlencoded"@), urlencoded: Some(fields), ..bare_body() },
        ) ==> request_body::body_fields(exported_body(request)) == postman::converted(pairs)
            && exported_body_mode(request) == "urlencoded"@,
        request.body == Some(BodyView { formdata: Some(fields), ..bare_body() }) || request.body
            == Some(BodyView { mode: Some("formdata"@), formdata: Some(fields), ..bare_body() })
            ==> request_body::body_fields(exported_body(request)) == postman::converted(pairs)
            && exported_body_mode(request) == "form-data"@,
{
    reveal_strlit("urlencoded");
    reveal_strlit("formdata");
    assert(text::trim("urlencoded"@) == "urlencoded"@);
    assert(text::trim("formdata"@) == "formdata"@);
    assert(text::ascii_lower("urlencoded"@) =~= "urlencoded"@);
    assert(text::ascii_lower("formdata"@) =~= "formdata"@);
    request_body::law_names_of_modes("urlencoded"@, "urlencoded"@);
    request_body::law_names_of_modes("formdata"@, "formdata"@);
    assert(text::trim(Seq::<char>::empty()).len() == 0);
    lemma_urlencoded_fields(fields, pairs);
    lemma_form_lines(fields, pairs);
}

proof fn lemma_urlencoded_fields(fields: Seq<FieldView>, pairs: Pairs)
    requires
        are_fields_of(fields, pairs),
        postman::are_plain(pairs),
        pairs.len() > 0,
    ensures
        request_body::body_fields(postman::payload_text(fields_tree(fields), "urlencoded"@))
            == postman::converted(pairs),
        !text::is_blank(postman::payload_text(fields_tree(fields), "urlencoded"@)),
{
    reveal_strlit("urlencoded");
    assert(text::trim("urlencoded"@) == "urlencoded"@);
    assert(text::ascii_lower("urlencoded"@) =~= "urlencoded"@);
    let items = fields.map_values(|field: FieldView| field_tree(field));
    let f = |item: JsonTree| postman::entry_pair(item);
    assert forall|i: int| 0 <= i < items.len() implies f(#[trigger] items[i]) == Some(
        postman::converted(pairs)[i],
    ) by {
        assert(!text::is_blank(pairs[i].0));
        lemma_field_entry(fields[i], pairs[i]);
    }
    text::lemma_filter_map_of_all(items, f);
    assert(items.filter_map(f) =~= postman::converted(pairs));
    postman::lemma_pairs_are_fields(postman::converted(pairs), "&"@);
    let body = postman::payload_text(fields_tree(fields), "urlencoded"@);
    if text::is_blank(body) {
        postman::lemma_blank_body(body);
    }
}

proof fn lemma_field_entry(field: FieldView, pair: (Seq<char>, Seq<char>))
    requires
        field == (FieldView {
            key: Some(pair.0),
            value: Some(JsonTree::Text(pair.1)),
            field_type: None,
            src: None,
            disabled: None,
            enabled: None,
        }),
        !text::is_blank(pair.0),
    ensures
        postman::entry_pair(field_tree(field)) == Some(
            (
                placeholders::normalized(text::trim(pair.0)),
                placeholders::normalized(text::trim(pair.1)),
            ),
        ),
{
    reveal_strlit("disabled");
    reveal_strlit("enabled");
    reveal_strlit("key");
    reveal_strlit("src");
    reveal_strlit("type");
    reveal_strlit("value");
    assert("disabled"@[0] == 'd' && "enabled"@[0] == 'e' && "key"@[0] == 'k');
    assert("src"@[0] == 's' && "type"@[0] == 't' && "value"@[0] == 'v');
    let fields = field_tree(field)->Record_0;
    json::law_field_is_the_first(fields, "disabled"@, 0);
    json::law_field_is_the_first(fields, "enabled"@, 1);
    json::law_field_is_the_first(fields, "key"@, 2);
    json::law_field_is_the_first(fields, "value"@, 5);
}

proof fn lemma_form_lines(fields: Seq<FieldView>, pairs: Pairs)
    requires
        are_fields_of(fields, pairs),
        postman::are_plain(pairs),
        pairs.len() > 0,
    ensures
        request_body::body_fields(form_text(fields)) == postman::converted(pairs),
        !text::is_blank(form_text(fields)),
{
    reveal_strlit("\n");
    let f = |field: FieldView| form_line(field);
    let stated = postman::converted(pairs);
    assert forall|i: int| 0 <= i < fields.len() implies f(#[trigger] fields[i]) == Some(
        stated[i].0 + "="@ + stated[i].1,
    ) by {
        assert(!text::is_blank(pairs[i].0));
    }
    text::lemma_filter_map_of_all(fields, f);
    let lines = fields.filter_map(f);
    assert forall|i: int| 0 <= i < lines.len() implies request_body::body_fields(
        #[trigger] lines[i],
    ) == seq![stated[i]] by {
        assert(f(fields[i]) == Some(lines[i]));
        assert(request_body::is_plain_field(stated[i]));
        request_body::law_item_states_a_field(stated[i].0, stated[i].1);
    }
    lemma_lines_state_fields(lines, stated);
    let body = form_text(fields);
    if text::is_blank(body) {
        postman::lemma_blank_body(body);
    }
}

proof fn lemma_lines_state_fields(lines: Seq<Seq<char>>, stated: Pairs)
    requires
        lines.len() == stated.len(),
        lines.len() > 0,
        forall|i: int|
            0 <= i < lines.len() ==> request_body::body_fields(#[trigger] lines[i]) == seq![
                stated[i],
            ],
    ensures
        request_body::body_fields(text::join(lines, "\n"@)) == stated,
    decreases lines.len(),
{
    let n = lines.len() - 1;
    if n == 0 {
        assert(request_body::body_fields(lines[0]) == seq![stated[0]]);
        assert(seq![stated[0]] =~= stated);
    } else {
        let rest = lines.drop_last();
        let fewer = stated.drop_last();
        assert forall|i: int| 0 <= i < rest.len() implies request_body::body_fields(
            #[trigger] rest[i],
        ) == seq![fewer[i]] by {
            assert(rest[i] == lines[i]);
        }
        lemma_lines_state_fields(rest, fewer);
        request_body::law_fields_are_parted(text::join(rest, "\n"@), lines.last());
        assert(request_body::body_fields(lines[n]) == seq![stated[n]]);
        assert(fewer + seq![stated[n]] =~= stated);
    }
}

/// A field of a form that stands for a file is `@` and the path of the file.
pub proof fn law_exported_file_is_named(key: Seq<char>, path: Seq<char>, field: FieldView)
    requires
        field == (FieldView {
            key: Some(key),
            value: None,
            field_type: Some("file"@),
            src: Some(JsonTree::Text(path)),
            disabled: None,
            enabled: None,
        }),
        !text::is_blank(key),
        !text::is_blank(path),
    ensures
        form_line(field) == Some(
            placeholders::normalized(text::trim(key)) + "=@"@ + placeholders::normalized(
                text::trim(path),
            ),
        ),
        form_line(FieldView { disabled: Some(true), ..field }) is None,
        form_line(FieldView { enabled: Some(false), ..field }) is None,
{
    reveal_strlit("file");
    assert(text::trim("file"@) == "file"@);
}

/// A URL that is taken apart and has no raw text is put together, and its query is the one that
/// it states.
pub proof fn law_exported_url_is_put_together(
    request: RequestView,
    url: UrlObjectView,
    fields: Seq<FieldView>,
    pairs: Pairs,
    host: Seq<char>,
    path: Seq<char>,
)
    requires
        request.url == Some(UrlView::UrlObject(url)),
        request.auth is None,
        url == (UrlObjectView {
            raw: None,
            protocol: Some("http"@),
            host: Some(JsonTree::Text(host)),
            path: Some(JsonTree::Text(path)),
            port: None,
            query: Some(fields),
        }),
        are_fields_of(fields, pairs),
        host.len() > 0,
        text::trim(host) == host,
        host[0] != '/' && host.last() != '/',
        path.len() > 0,
        path[0] != '/' && path.last() != '/',
        !host.contains('?') && !host.contains('#') && !path.contains('?') && !path.contains('#'),
        forall|i: int|
            0 <= i < pairs.len() ==> urls::is_plain_key((#[trigger] postman::converted(pairs)[i]).0)
                && urls::is_plain_value(postman::converted(pairs)[i].1),
    ensures
        exported_url(request) matches Some(whole) && urls::split_query(whole) == (
            "http"@ + "://"@ + host + "/"@ + path,
            postman::converted(pairs),
        ),
{
    reveal_strlit("http");
    reveal_strlit("://");
    reveal_strlit("/");
    assert(text::trim("http"@) == "http"@);
    let slashed = "/"@ + path;
    postman::law_url_is_put_together("http"@, host, Seq::empty(), path);
    assert(folders::strip(path, '/') == path);
    assert(slashed.drop_first() =~= path);
    let base = "http"@ + "://"@ + host + "/"@ + path;
    let f = |field: FieldView|
        stated_pair(field.key, field.value, field.disabled, field.enabled);
    assert forall|i: int| 0 <= i < fields.len() implies f(#[trigger] fields[i]) == Some(
        postman::converted(pairs)[i],
    ) by {
        assert(!text::is_blank(pairs[i].0));
    }
    text::lemma_filter_map_of_all(fields, f);
    assert(fields.filter_map(f) =~= postman::converted(pairs));
    assert(exported_query(request) =~= postman::converted(pairs));
    assert forall|c: char| (c == '?' || c == '#') implies !base.contains(c) by {
        if base.contains(c) {
            let k = choose|k: int| 0 <= k < base.len() && base[k] == c;
            if 7 <= k < 7 + host.len() {
                assert(host.contains(host[k - 7]));
            } else if k > 7 + host.len() {
                assert(path.contains(path[k - 8 - host.len()]));
            }
        }
    }
    postman::law_query_of_the_url(base, postman::converted(pairs));
}

/// An exported environment is imported under its name, with each variable that is not switched
/// off, its placeholders converted, in order.
pub proof fn law_exported_environment_is_imported(
    export: PostmanEnvironmentExport,
    file_stem: Option<Seq<char>>,
    values: Seq<PostmanEnvironmentValue>,
    pairs: Pairs,
)
    requires
        export.values matches Some(stated) && stated@ == values,
        values.len() == pairs.len(),
        pairs.len() > 0,
        forall|i: int|
            0 <= i < values.len() ==> {
                let value = #[trigger] values[i];
                &&& view_of(value.key) == Some(pairs[i].0)
                &&& view_of(value.value) == Some(JsonTree::Text(pairs[i].1))
                &&& value.enabled != Some(false)
                &&& !text::is_blank(pairs[i].0)
            },
    ensures
        exported_environment(export, file_stem) matches Some(environment)
            && environment.variables.len() == pairs.len() && (forall|i: int|
            0 <= i < pairs.len() ==> environment.variables[i] == (
                text::trim((#[trigger] pairs[i]).0),
                placeholders::normalized(pairs[i].1),
            )) && (match export.name {
            Some(name) => !text::is_blank(name@) ==> environment.name == text::trim(name@),
            None => match file_stem {
                Some(stem) => environment.name == stem,
                None => environment.name == "imported-environment"@,
            },
        }),
{
    let f = |value: PostmanEnvironmentValue| exported_variable(value);
    assert forall|i: int| 0 <= i < values.len() implies f(#[trigger] values[i]) == Some(
        (text::trim(pairs[i].0), placeholders::normalized(pairs[i].1)),
    ) by {}
    text::lemma_filter_map_of_all(values, f);
    let environment = exported_environment(export, file_stem)->0;
    assert forall|i: int| 0 <= i < pairs.len() implies environment.variables[i] == (
        text::trim((#[trigger] pairs[i]).0),
        placeholders::normalized(pairs[i].1),
    ) by {
        assert(Some(values.filter_map(f)[i]) == f(values[i]));
    }
}

/// A variable that is switched off is left out, and one without a name is.
pub proof fn law_unused_variables_are_left_out(
    before: Seq<PostmanEnvironmentValue>,
    value: PostmanEnvironmentValue,
    after: Seq<PostmanEnvironmentValue>,
)
    requires
        value.enabled == Some(false) || value.key is None,
    ensures
        exported_variables(before + seq![value] + after) == exported_variables(before)
            + exported_variables(after),
{
    let f = |value: PostmanEnvironmentValue| exported_variable(value);
    text::lemma_filter_map_in_turn(before + seq![value], after, f);
    text::lemma_filter_map_in_turn(before, seq![value], f);
    Seq::lemma_filter_map_singleton(value, f);
    assert(before.filter_map(f) + Seq::<(Seq<char>, Seq<char>)>::empty() =~= before.filter_map(f));
}

/// A field that is written as JSON is read as the same field.
pub proof fn law_field_is_read_back(field: FieldView)
    requires
        field.value != Some(JsonTree::Null),
        field.src != Some(JsonTree::Null),
    ensures
        decoded_field(field_tree(field)) == Some(field),
{
    reveal_strlit("disabled");
    reveal_strlit("enabled");
    reveal_strlit("key");
    reveal_strlit("src");
    reveal_strlit("type");
    reveal_strlit("value");
    let fields = field_tree(field)->Record_0;
    assert("disabled"@.len() == 8 && "enabled"@.len() == 7 && "type"@.len() == 4 && "value"@.len()
        == 5);
    assert("key"@[0] == 'k' && "src"@[0] == 's');
    json::law_field_is_the_first(fields, "disabled"@, 0);
    json::law_field_is_the_first(fields, "enabled"@, 1);
    json::law_field_is_the_first(fields, "key"@, 2);
    json::law_field_is_the_first(fields, "src"@, 3);
    json::law_field_is_the_first(fields, "type"@, 4);
    json::law_field_is_the_first(fields, "value"@, 5);
}

/// A list of fields that is written as JSON is read as the same list.
pub proof fn law_fields_are_read_back(fields: Seq<FieldView>)
    requires
        forall|i: int|
            0 <= i < fields.len() ==> (#[trigger] fields[i]).value != Some(JsonTree::Null)
                && fields[i].src != Some(JsonTree::Null),
    ensures
        decoded_field_list(Some(fields_tree(fields))) == Some(Some(fields)),
    decreases fields.len(),
{
    let items = fields.map_values(|field: FieldView| field_tree(field));
    if fields.len() > 0 {
        let rest = fields.drop_last();
        assert forall|i: int| 0 <= i < rest.len() implies (#[trigger] rest[i]).value != Some(
            JsonTree::Null,
        ) && rest[i].src != Some(JsonTree::Null) by {
            assert(rest[i] == fields[i]);
        }
        law_fields_are_read_back(rest);
        law_field_is_read_back(fields[fields.len() - 1]);
        assert(items.drop_last() =~= rest.map_values(|field: FieldView| field_tree(field)));
        assert(rest.push(fields.last()) =~= fields);
    } else {
        assert(fields =~= Seq::<FieldView>::empty());
    }
}

/// A header states the key, the value and the marks of its record.
pub proof fn law_header_is_read(
    fields: Seq<(Seq<char>, JsonTree)>,
    key: Seq<char>,
    value: JsonTree,
    mark: bool,
)
    requires
        json::field(fields, "key"@) == Some(JsonTree::Text(key)),
        json::field(fields, "value"@) == Some(value),
        value != JsonTree::Null,
        json::field(fields, "enabled"@) is None,
    ensures
        json::field(fields, "disabled"@) is None ==> decoded_header(JsonTree::Record(fields))
            == Some(
            HeaderView { key: Some(key), value: Some(value), disabled: None, enabled: None },
        ),
        json::field(fields, "disabled"@) == Some(JsonTree::Bool(mark)) ==> decoded_header(
            JsonTree::Record(fields),
        ) == Some(
            HeaderView { key: Some(key), value: Some(value), disabled: Some(mark), enabled: None },
        ),
{
}

/// The headers of a list are read in their order, one for each entry.
pub proof fn law_headers_are_read_in_order(items: Seq<JsonTree>, headers: Seq<HeaderView>)
    requires
        items.len() == headers.len(),
        forall|i: int|
            0 <= i < items.len() ==> decoded_header(#[trigger] items[i]) == Some(headers[i]),
    ensures
        decoded_header_list(Some(JsonTree::List(items))) == Some(Some(headers)),
    decreases items.len(),
{
    if items.len() > 0 {
        let rest = items.drop_last();
        assert forall|i: int| 0 <= i < rest.len() implies decoded_header(#[trigger] rest[i])
            == Some(headers.drop_last()[i]) by {
            assert(rest[i] == items[i]);
        }
        law_headers_are_read_in_order(rest, headers.drop_last());
        assert(decoded_header(items[items.len() - 1]) == Some(headers.last()));
        assert(headers.drop_last().push(headers.last()) =~= headers);
    } else {
        assert(headers =~= Seq::<HeaderView>::empty());
    }
}

/// The body of a request holds each part that its record states, and no other.
pub proof fn law_body_is_read(
    fields: Seq<(Seq<char>, JsonTree)>,
    mode: Seq<char>,
    raw: Seq<char>,
    items: Seq<FieldView>,
)
    requires
        json::field(fields, "mode"@) == Some(JsonTree::Text(mode)),
        json::field(fields, "file"@) is None,
        json::field(fields, "graphql"@) is None,
        forall|i: int|
            0 <= i < items.len() ==> (#[trigger] items[i]).value != Some(JsonTree::Null)
                && items[i].src != Some(JsonTree::Null),
    ensures
        ({
            let own = json::field(fields, "raw"@);
            let urlencoded = json::field(fields, "urlencoded"@);
            let formdata = json::field(fields, "formdata"@);
            let read = decoded_body(Some(JsonTree::Record(fields)));
            let stated = BodyView {
                mode: Some(mode),
                raw: None,
                urlencoded: None,
                formdata: None,
                file: None,
                graphql: None,
            };
            &&& own == Some(JsonTree::Text(raw)) && urlencoded is None && formdata is None ==> read
                == Some(Some(BodyView { raw: Some(raw), ..stated }))
            &&& own is None && urlencoded == Some(fields_tree(items)) && formdata is None ==> read
                == Some(Some(BodyView { urlencoded: Some(items), ..stated }))
            &&& own is None && urlencoded is None && formdata == Some(fields_tree(items)) ==> read
                == Some(Some(BodyView { formdata: Some(items), ..stated }))
        }),
{
    law_fields_are_read_back(items);
}

/// A URL is read as text where it is one, and part by part where it is a record.
pub proof fn law_url_is_read(
    url: Seq<char>,
    fields: Seq<(Seq<char>, JsonTree)>,
    host: JsonTree,
    path: JsonTree,
    query: Seq<FieldView>,
)
    requires
        json::field(fields, "raw"@) == Some(JsonTree::Text(url)),
        json::field(fields, "protocol"@) is None,
        json::field(fields, "port"@) is None,
        json::field(fields, "host"@) == Some(host),
        json::field(fields, "path"@) == Some(path),
        json::field(fields, "query"@) == Some(fields_tree(query)),
        host != JsonTree::Null,
        path != JsonTree::Null,
        forall|i: int|
            0 <= i < query.len() ==> (#[trigger] query[i]).value != Some(JsonTree::Null)
                && query[i].src != Some(JsonTree::Null),
    ensures
        decoded_url(Some(JsonTree::Text(url))) == Some(Some(UrlView::RawString(url))),
        decoded_url(Some(JsonTree::Record(fields))) == Some(
            Some(
                UrlView::UrlObject(
                    UrlObjectView {
                        raw: Some(url),
                        protocol: None,
                        host: Some(host),
                        path: Some(path),
                        port: None,
                        query: Some(query),
                    },
                ),
            ),
        ),
{
    law_fields_are_read_back(query);
}

/// A request holds the id, method, headers, body, URL and authentication of its record.
pub proof fn law_request_is_read(
    fields: Seq<(Seq<char>, JsonTree)>,
    id: Seq<char>,
    method: Seq<char>,
    url: Seq<char>,
    header: JsonTree,
    headers: Seq<HeaderView>,
    stated: JsonTree,
    body: BodyView,
    auth: JsonTree,
)
    requires
        json::field(fields, "id"@) == Some(JsonTree::Text(id)),
        json::field(fields, "method"@) == Some(JsonTree::Text(method)),
        json::field(fields, "url"@) == Some(JsonTree::Text(url)),
        json::field(fields, "header"@) == Some(header),
        json::field(fields, "body"@) == Some(stated),
        json::field(fields, "auth"@) == Some(auth),
        auth != JsonTree::Null,
        decoded_header_list(Some(header)) == Some(Some(headers)),
        decoded_body(Some(stated)) == Some(Some(body)),
    ensures
        decoded_request(JsonTree::Record(fields)) == Some(
            RequestView {
                id: Some(id),
                method: Some(method),
                header: Some(headers),
                body: Some(body),
                url: Some(UrlView::RawString(url)),
                auth: Some(auth),
            },
        ),
{
}

/// Of several paths, the first that is not blank names the file.
pub proof fn law_first_path_names_the_file(items: Seq<JsonTree>, i: int, path: Seq<char>)
    requires
        0 <= i < items.len(),
        items[i] == JsonTree::Text(path),
        !text::is_blank(path),
        forall|j: int|
            0 <= j < i ==> match #[trigger] items[j] {
                JsonTree::Text(other) => text::is_blank(other),
                _ => true,
            },
    ensures
        source_path(JsonTree::List(items)) == path,
    decreases i,
{
    if i > 0 {
        let rest = items.drop_first();
        let first = items[0];
        assert forall|j: int| 0 <= j < i - 1 implies match #[trigger] rest[j] {
            JsonTree::Text(other) => text::is_blank(other),
            _ => true,
        } by {
            assert(rest[j] == items[j + 1]);
        }
        law_first_path_names_the_file(rest, i - 1, path);
    }
}

/// Where no mode is stated, the part that the body of an exported request has tells it.
pub proof fn law_exported_part_tells_the_mode(request: RequestView, body: BodyView)
    requires
        request.body == Some(body),
        body.mode is None,
    ensures
        body.urlencoded is Some ==> exported_body_mode(request) == "urlencoded"@,
        body.urlencoded is None && body.formdata is Some ==> exported_body_mode(request)
            == "form-data"@,
        body.urlencoded is None && body.formdata is None && body.file is Some
            ==> exported_body_mode(request) == "binary"@,
        body == (BodyView { raw: body.raw, graphql: body.graphql, ..bare_body() }) ==> (
        exported_body_mode(request) == if body.raw is Some || body.graphql is Some {
            "raw"@
        } else {
            "none"@
        }),
        exported_body_mode(RequestView { body: None, ..request }) == "none"@,
{
}

/// The file and the GraphQL query of an exported request are its body, where it has no other
/// part.
pub proof fn law_exported_file_and_query_are_the_body(
    request: RequestView,
    body: BodyView,
    fields: postman::Fields,
    path: Seq<char>,
    query: Seq<char>,
)
    requires
        request.body == Some(body),
        body == (BodyView { file: body.file, graphql: body.graphql, ..bare_body() }),
        !text::is_blank(path),
        !text::is_blank(query),
        !text::is_blank(placeholders::normalized(text::trim(query))),
    ensures
        body.file == Some(JsonTree::Record(fields)) && body.graphql is None && json::field(
            fields,
            "src"@,
        ) == Some(JsonTree::Text(path)) ==> exported_body(request) == "@"@
            + placeholders::normalized(text::trim(path)),
        body.file is None && body.graphql == Some(
            GraphqlView { query: Some(query), variables: None },
        ) ==> exported_body(request) == placeholders::normalized(text::trim(query)),
{
    reveal_strlit("file");
    reveal_strlit("graphql");
    reveal_strlit("@");
    assert(text::trim("file"@) == "file"@);
    assert(text::ascii_lower("file"@) =~= "file"@);
    assert(text::trim("graphql"@) == "graphql"@);
    assert(text::ascii_lower("graphql"@) =~= "graphql"@);
    if body.file == Some(JsonTree::Record(fields)) && body.graphql is None && json::field(
        fields,
        "src"@,
    ) == Some(JsonTree::Text(path)) {
        postman::law_file_payload_names_the_file(fields, path, "file"@);
        let own = "@"@ + placeholders::normalized(text::trim(path));
        assert(own[0] == '@');
        lemma_begun_is_kept(own);
    }
    if body.file is None && body.graphql == Some(
        GraphqlView { query: Some(query), variables: None },
    ) {
        let graphql = GraphqlView { query: Some(query), variables: None };
        let inner = graphql_tree(graphql)->Record_0;
        reveal_strlit("query");
        reveal_strlit("variables");
        assert("query"@.len() != "variables"@.len());
        json::law_field_is_the_first(inner, "query"@, 0);
        json::law_field_is_the_first(inner, "variables"@, 1);
        postman::law_graphql_payload_is_the_query(inner, query, "graphql"@);
    }
}

proof fn lemma_begun_is_kept(s: Seq<char>)
    requires
        s.len() > 0,
        !text::is_whitespace(s[0]),
    ensures
        !text::is_blank(s),
        text::trim_end(s).len() > 0,
    decreases s.len(),
{
    assert(text::trim_start(s) == s);
    if s.len() > 1 && text::is_whitespace(s.last()) {
        lemma_begun_is_kept(s.drop_last());
    }
}

} // verus!
