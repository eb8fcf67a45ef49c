//! Request bodies: modes, content types, field lists, and what is sent.
use crate::models::KeyValue;
use crate::text;
use crate::text::{
    concat3, decimal_text, same_text, split_any, split_once, strip_char, to_ascii_lower, trimmed,
    trimmed_start,
};
use vstd::prelude::*;
use vstd::string::*;
use vstd::utf8::*;

verus! {

// ---------------------------------------------------------------------------
// Body modes
// ---------------------------------------------------------------------------

/// The body modes on offer.
pub open spec fn body_modes() -> Seq<Seq<char>> {
    seq!["none"@, "raw"@, "urlencoded"@, "form-data"@, "binary"@]
}

pub fn body_mode_options() -> (r: Vec<&'static str>)
    ensures
        text::views(r@) == body_modes(),
{
    let r = vec!["none", "raw", "urlencoded", "form-data", "binary"];
    assert(text::views(r@) =~= body_modes());
    r
}

/// The body mode that a name stands for. Names count without surrounding white space and
/// without regard to case; an unknown name stands for `raw`.
pub open spec fn body_mode(name: Seq<char>) -> Seq<char> {
    let mode = text::ascii_lower(text::trim(name));
    if mode == "none"@ {
        "none"@
    } else if mode == "urlencoded"@ || mode == "x-www-form-urlencoded"@ {
        "urlencoded"@
    } else if mode == "formdata"@ || mode == "form-data"@ || mode == "multipart/form-data"@ {
        "form-data"@
    } else if mode == "binary"@ || mode == "file"@ {
        "binary"@
    } else {
        "raw"@
    }
}

pub fn normalize_body_mode(mode: &str) -> (r: &'static str)
    ensures
        r@ == body_mode(mode@),
{
    let name = to_ascii_lower(trimmed(mode).as_str());
    let name = name.as_str();
    if same_text(name, "none") {
        "none"
    } else if same_text(name, "urlencoded") || same_text(name, "x-www-form-urlencoded") {
        "urlencoded"
    } else if same_text(name, "formdata") || same_text(name, "form-data") || same_text(
        name,
        "multipart/form-data",
    ) {
        "form-data"
    } else if same_text(name, "binary") || same_text(name, "file") {
        "binary"
    } else {
        "raw"
    }
}

pub fn normalize_body_mode_owned(mode: &str) -> (r: String)
    ensures
        r@ == body_mode(mode@),
{
    normalize_body_mode(mode).to_owned()
}

/// Every name stands for one of the modes on offer, and each of those stands for itself.
pub proof fn law_body_mode_is_canonical(name: Seq<char>)
    ensures
        body_modes().contains(body_mode(name)),
        body_mode(body_mode(name)) == body_mode(name),
{
    let modes = body_modes();
    assert(modes[0] == "none"@ && modes[1] == "raw"@ && modes[2] == "urlencoded"@ && modes[3]
        == "form-data"@ && modes[4] == "binary"@);
    reveal_strlit("none");
    reveal_strlit("raw");
    reveal_strlit("urlencoded");
    reveal_strlit("x-www-form-urlencoded");
    reveal_strlit("formdata");
    reveal_strlit("form-data");
    reveal_strlit("multipart/form-data");
    reveal_strlit("binary");
    reveal_strlit("file");
    lemma_plain(body_mode(name));
}

/// A text that neither begins nor ends with white space and has no capital letters is
/// unchanged by trimming and lowering.
proof fn lemma_plain(s: Seq<char>)
    requires
        s.len() > 0,
        !text::is_whitespace(s[0]),
        !text::is_whitespace(s.last()),
        forall|i: int| 0 <= i < s.len() ==> !('A' <= #[trigger] s[i] && s[i] <= 'Z'),
    ensures
        text::ascii_lower(text::trim(s)) == s,
{
    assert(text::ascii_lower(s) =~= s);
}

// ---------------------------------------------------------------------------
// Content headers
// ---------------------------------------------------------------------------

/// Methods whose empty body is announced.
pub open spec fn announces_empty_body(method: Seq<char>) -> bool {
    method == "POST"@ || method == "PUT"@ || method == "PATCH"@
}

pub fn should_set_zero_content_length(method: &str) -> (r: bool)
    ensures
        r == announces_empty_body(method@),
{
    same_text(method, "POST") || same_text(method, "PUT") || same_text(method, "PATCH")
}

/// The content length that is sent where the request does not name one: the size of a body of
/// known size, and zero where a method that usually carries a body carries none.
pub open spec fn default_content_length(
    method: Seq<char>,
    has_content_length_header: bool,
    known_body_length: Option<usize>,
    has_request_body: bool,
) -> Option<Seq<char>> {
    if has_content_length_header {
        None
    } else if known_body_length is Some {
        Some(text::decimal(known_body_length->0 as nat))
    } else if !has_request_body && announces_empty_body(method) {
        Some("0"@)
    } else {
        None
    }
}

pub fn computed_default_content_length(
    method: &str,
    has_content_length_header: bool,
    known_body_length: Option<usize>,
    has_request_body: bool,
) -> (r: Option<String>)
    ensures
        text::opt(r) == default_content_length(
            method@,
            has_content_length_header,
            known_body_length,
            has_request_body,
        ),
{
    if has_content_length_header {
        return None;
    }
    if let Some(length) = known_body_length {
        return Some(decimal_text(length as u64));
    }
    if !has_request_body && should_set_zero_content_length(method) {
        return Some("0".to_owned());
    }
    None
}

pub fn should_add_default_content_type(
    has_request_body: bool,
    has_content_type_header: bool,
) -> (r: bool)
    ensures
        r == (has_request_body && !has_content_type_header),
{
    has_request_body && !has_content_type_header
}

/// A body that starts like a JSON object or array counts as JSON, any other as plain text.
pub open spec fn raw_content_type(body: Seq<char>) -> Seq<char> {
    let content = text::trim_start(body);
    if content.len() > 0 && (content[0] == '{' || content[0] == '[') {
        "application/json"@
    } else {
        "text/plain"@
    }
}

pub fn infer_default_raw_content_type(body: &str) -> (r: &'static str)
    ensures
        r@ == raw_content_type(body@),
{
    let content = text::chars_of(trimmed_start(body).as_str());
    if content.len() > 0 && (content[0] == '{' || content[0] == '[') {
        "application/json"
    } else {
        "text/plain"
    }
}

/// The content type that goes with a body of the mode.
pub open spec fn content_type(mode: Seq<char>, body: Seq<char>) -> Option<Seq<char>> {
    if mode == "none"@ || mode == "form-data"@ {
        None
    } else if mode == "urlencoded"@ {
        Some("application/x-www-form-urlencoded"@)
    } else if mode == "binary"@ {
        Some("application/octet-stream"@)
    } else {
        Some(raw_content_type(body))
    }
}

pub fn default_content_type_for_mode(body_mode: &str, body: &str) -> (r: Option<&'static str>)
    ensures
        match r {
            Some(name) => content_type(body_mode@, body@) == Some(name@),
            None => content_type(body_mode@, body@) is None,
        },
{
    if same_text(body_mode, "none") || same_text(body_mode, "form-data") {
        None
    } else if same_text(body_mode, "urlencoded") {
        Some("application/x-www-form-urlencoded")
    } else if same_text(body_mode, "binary") {
        Some("application/octet-stream")
    } else {
        Some(infer_default_raw_content_type(body))
    }
}

// ---------------------------------------------------------------------------
// Field lists
// ---------------------------------------------------------------------------

/// The field that one item of a body states: `key=value`, or a bare key. Items without a key
/// state nothing.
pub open spec fn body_field(item: Seq<char>) -> Option<(Seq<char>, Seq<char>)> {
    let item = text::trim(item);
    let (key, value) = match text::cut(item, '=') {
        Some(parts) => parts,
        None => (item, Seq::empty()),
    };
    if text::is_blank(key) {
        None
    } else {
        Some((text::trim(key), text::trim(value)))
    }
}

/// The fields that a body states, one per line or `&`-separated item.
pub open spec fn body_fields(body: Seq<char>) -> Seq<(Seq<char>, Seq<char>)> {
    text::split_at_any(body, '\n', '&').filter_map(|item: Seq<char>| body_field(item))
}

proof fn lemma_blank_item(item: Seq<char>)
    requires
        text::trim(item).len() == 0,
    ensures
        body_field(item) is None,
{
    assert(text::first_index(text::trim(item), '=') == 0);
    assert(text::cut(text::trim(item), '=') is None);
}

fn parse_body_field(raw: &str) -> (r: Option<(String, String)>)
    ensures
        match r {
            Some(field) => body_field(raw@) == Some((field.0@, field.1@)),
            None => body_field(raw@) is None,
        },
{
    let item = trimmed(raw);
    if item.as_str().is_empty() {
        proof {
            lemma_blank_item(raw@);
        }
        return None;
    }
    let (key, value) = match split_once(item.as_str(), '=') {
        Some(parts) => parts,
        None => (item, String::new()),
    };
    let key = trimmed(key.as_str());
    if key.as_str().is_empty() {
        return None;
    }
    Some((key, trimmed(value.as_str())))
}

pub fn parse_body_fields(body: &str) -> (fields: Vec<(String, String)>)
    ensures
        text::views(fields@) == body_fields(body@),
{
    let items = split_any(body, '\n', '&');
    let mut fields: Vec<(String, String)> = Vec::new();
    let ghost all = text::views(items@);
    let ghost f = |item: Seq<char>| body_field(item);
    let mut i: usize = 0;
    assert(text::views(fields@) =~= all.take(0).filter_map(f));
    while i < items.len()
        invariant
            i <= items@.len(),
            all == text::views(items@),
            f == (|item: Seq<char>| body_field(item)),
            text::views(fields@) == all.take(i as int).filter_map(f),
        decreases items@.len() - i,
    {
        proof {
            all.lemma_filter_map_take_succ(f, i as int);
        }
        if let Some(field) = parse_body_field(items[i].as_str()) {
            proof {
                text::lemma_views_push(fields@, field);
            }
            fields.push(field);
        }
        i += 1;
    }
    assert(all.take(all.len() as int) =~= all);
    fields
}

/// How a field is written: `key=value`, the bare key where the value is blank, and nothing
/// where the key is blank.
pub open spec fn field_text(field: (Seq<char>, Seq<char>)) -> Option<Seq<char>> {
    if text::is_blank(field.0) {
        None
    } else if text::is_blank(field.1) {
        Some(text::trim(field.0))
    } else {
        Some(text::trim(field.0) + "="@ + text::trim(field.1))
    }
}

/// The texts of the fields that have one.
pub open spec fn field_texts(fields: Seq<(Seq<char>, Seq<char>)>) -> Seq<Seq<char>> {
    fields.filter_map(|field: (Seq<char>, Seq<char>)| field_text(field))
}

pub fn serialize_body_fields(fields: &Vec<KeyValue>, separator: &str) -> (r: String)
    ensures
        r@ == text::join(field_texts(text::views(fields@)), separator@),
{
    let mut parts: Vec<String> = Vec::new();
    let ghost all = text::views(fields@);
    let ghost f = |field: (Seq<char>, Seq<char>)| field_text(field);
    let mut i: usize = 0;
    assert(text::views(parts@) =~= all.take(0).filter_map(f));
    while i < fields.len()
        invariant
            i <= fields@.len(),
            all == text::views(fields@),
            f == (|field: (Seq<char>, Seq<char>)| field_text(field)),
            text::views(parts@) == all.take(i as int).filter_map(f),
        decreases fields@.len() - i,
    {
        proof {
            all.lemma_filter_map_take_succ(f, i as int);
        }
        let key = trimmed(fields[i].key.as_str());
        if !key.as_str().is_empty() {
            let value = trimmed(fields[i].value.as_str());
            let part = if value.as_str().is_empty() {
                key
            } else {
                concat3(key.as_str(), "=", value.as_str())
            };
            proof {
                text::lemma_views_push(parts@, part);
            }
            parts.push(part);
        }
        i += 1;
    }
    assert(all.take(all.len() as int) =~= all);
    text::joined(&parts, separator)
}

/// Whether a field can be written into a body and read back as it is.
pub open spec fn is_plain_field(field: (Seq<char>, Seq<char>)) -> bool {
    &&& field.0.len() > 0
    &&& text::trim(field.0) == field.0
    &&& text::trim(field.1) == field.1
    &&& !field.0.contains('=')
    &&& !field.0.contains('\n') && !field.0.contains('&')
    &&& !field.1.contains('\n') && !field.1.contains('&')
}

/// Plain fields that were written into a body, one per line or with `&` between them, are read
/// back.
pub proof fn law_written_fields_are_read(
    fields: Seq<(Seq<char>, Seq<char>)>,
    separator: Seq<char>,
)
    requires
        separator == "\n"@ || separator == "&"@,
        forall|i: int| 0 <= i < fields.len() ==> is_plain_field(#[trigger] fields[i]),
    ensures
        body_fields(text::join(field_texts(fields), separator)) == fields,
{
    reveal_strlit("\n");
    reveal_strlit("&");
    let texts = field_texts(fields);
    let body = text::join(texts, separator);
    lemma_fields_are_written(fields, fields.len() as int);
    assert(fields.take(fields.len() as int) =~= fields);
    if fields.len() == 0 {
        assert(text::split_at_any(body, '\n', '&') =~= seq![body]);
        lemma_blank_item(body);
        assert(seq![body].drop_last() =~= Seq::<Seq<char>>::empty());
        reveal_with_fuel(Seq::filter_map, 2);
        assert(body_fields(body) =~= fields);
    } else {
        let c = separator[0];
        assert(separator =~= seq![c]);
        assert forall|i: int| 0 <= i < texts.len() implies !(#[trigger] texts[i]).contains('\n')
            && !texts[i].contains('&') by {
            lemma_field_is_read(fields[i]);
        }
        text::lemma_split_join(texts, c, '\n', '&');
        lemma_fields_are_read(fields, fields.len() as int);
        assert(texts.take(fields.len() as int) =~= texts);
    }
}

/// Reading the fields of a body and writing them again keeps the fields.
pub proof fn law_fields_are_read_once(body: Seq<char>, separator: Seq<char>)
    requires
        separator == "\n"@ || separator == "&"@,
    ensures
        body_fields(text::join(field_texts(body_fields(body)), separator)) == body_fields(body),
{
    lemma_fields_are_plain(body);
    law_written_fields_are_read(body_fields(body), separator);
}

/// The fields of a body are plain.
pub proof fn lemma_fields_are_plain(body: Seq<char>)
    ensures
        forall|i: int|
            0 <= i < body_fields(body).len() ==> is_plain_field(#[trigger] body_fields(body)[i]),
{
    let f = |item: Seq<char>| body_field(item);
    let items = text::split_at_any(body, '\n', '&');
    text::lemma_split_is_clean(body, '\n', '&');
    assert forall|i: int| 0 <= i < body_fields(body).len() implies is_plain_field(
        #[trigger] body_fields(body)[i],
    ) by {
        let field = body_fields(body)[i];
        items.lemma_filter_map_contains(f, field);
        let item = choose|item: Seq<char>| items.contains(item) && #[trigger] f(item) == Some(field);
        let k = choose|k: int| 0 <= k < items.len() && items[k] == item;
        assert(!items[k].contains('\n') && !items[k].contains('&'));
        let content = text::trim(item);
        let (key, value) = match text::cut(content, '=') {
            Some(parts) => parts,
            None => (content, Seq::empty()),
        };
        text::lemma_trim_is_part(item);
        text::lemma_trim_is_part(key);
        text::lemma_trim_is_part(value);
        text::lemma_trim_is_final(key);
        text::lemma_trim_is_final(value);
        text::lemma_first_of_bounds(content, '=', '=');
        assert forall|c: char| !item.contains(c) implies !field.0.contains(c) && !field.1.contains(
            c,
        ) by {
            if field.0.contains(c) {
                let j = choose|j: int| 0 <= j < field.0.len() && field.0[j] == c;
                assert(key.contains(field.0[j]));
                let m = choose|m: int| 0 <= m < key.len() && key[m] == c;
                assert(content[m] == c);
                assert(item.contains(content[m]));
            }
            if field.1.contains(c) {
                let j = choose|j: int| 0 <= j < field.1.len() && field.1[j] == c;
                assert(value.contains(field.1[j]));
                let m = choose|m: int| 0 <= m < value.len() && value[m] == c;
                let n = text::first_index(content, '=');
                assert(content[n + 1 + m] == c);
                assert(item.contains(content[n + 1 + m]));
            }
        }
        if field.0.contains('=') {
            let j = choose|j: int| 0 <= j < field.0.len() && field.0[j] == '=';
            assert(key.contains(field.0[j]));
            let m = choose|m: int| 0 <= m < key.len() && key[m] == '=';
            assert(content[m] == '=');
        }
    }
}

/// How a plain field is written, and that it is read back.
proof fn lemma_field_is_read(field: (Seq<char>, Seq<char>))
    requires
        is_plain_field(field),
    ensures
        field_text(field) matches Some(item) && body_field(item) == Some(field) && !item.contains(
            '\n',
        ) && !item.contains('&'),
{
    reveal_strlit("=");
    let (key, value) = field;
    let item = field_text(field)->0;
    text::lemma_trimmed_ends(key);
    assert forall|j: int| 0 <= j < key.len() implies key[j] != '=' by {
        assert(key.contains(key[j]));
    }
    if value.len() == 0 {
        assert(item == key);
        text::lemma_first_of(item, '=', '=', item.len() as int);
        assert(text::trim(value) =~= value);
    } else {
        text::lemma_trimmed_ends(value);
        assert(item[0] == key[0]);
        assert(item.last() == value.last());
        assert(text::trim(item) == item);
        text::lemma_first_of(item, '=', '=', key.len() as int);
        assert(item.take(key.len() as int) =~= key);
        assert(item.skip(key.len() as int + 1) =~= value);
        assert forall|c: char| (c == '\n' || c == '&') implies !item.contains(c) by {
            if item.contains(c) {
                let j = choose|j: int| 0 <= j < item.len() && item[j] == c;
                if j < key.len() {
                    assert(key.contains(key[j]));
                } else if j > key.len() {
                    assert(value.contains(value[j - key.len() - 1]));
                }
            }
        }
    }
}

/// Each plain field is written.
proof fn lemma_fields_are_written(fields: Seq<(Seq<char>, Seq<char>)>, n: int)
    requires
        0 <= n <= fields.len(),
        forall|i: int| 0 <= i < fields.len() ==> is_plain_field(#[trigger] fields[i]),
    ensures
        field_texts(fields.take(n)).len() == n,
        forall|i: int|
            0 <= i < n ==> Some(#[trigger] field_texts(fields.take(n))[i]) == field_text(fields[i]),
    decreases n,
{
    let f = |field: (Seq<char>, Seq<char>)| field_text(field);
    if n > 0 {
        lemma_fields_are_written(fields, n - 1);
        fields.lemma_filter_map_take_succ(f, n - 1);
        lemma_field_is_read(fields[n - 1]);
    } else {
        assert(fields.take(0).filter_map(f) =~= Seq::empty());
    }
}

/// The written fields are read back, one after the other.
proof fn lemma_fields_are_read(fields: Seq<(Seq<char>, Seq<char>)>, n: int)
    requires
        0 <= n <= fields.len(),
        forall|i: int| 0 <= i < fields.len() ==> is_plain_field(#[trigger] fields[i]),
        field_texts(fields).len() == fields.len(),
        forall|i: int|
            0 <= i < fields.len() ==> Some(#[trigger] field_texts(fields)[i]) == field_text(
                fields[i],
            ),
    ensures
        field_texts(fields).take(n).filter_map(|item: Seq<char>| body_field(item)) == fields.take(
            n,
        ),
    decreases n,
{
    let f = |item: Seq<char>| body_field(item);
    let texts = field_texts(fields);
    if n > 0 {
        lemma_fields_are_read(fields, n - 1);
        texts.lemma_filter_map_take_succ(f, n - 1);
        lemma_field_is_read(fields[n - 1]);
        assert(Some(texts[n - 1]) == field_text(fields[n - 1]));
        assert(fields.take(n) =~= fields.take(n - 1) + seq![fields[n - 1]]);
    } else {
        assert(texts.take(0).filter_map(f) =~= fields.take(0));
    }
}

// ---------------------------------------------------------------------------
// What is sent
// ---------------------------------------------------------------------------

/// The contents of a file, with the last component of its path where that is text.
#[derive(Debug, PartialEq, Eq)]
pub struct LoadedFile {
    pub name: Option<String>,
    pub bytes: Vec<u8>,
}

/// What a part of a multipart form holds.
#[derive(Debug, PartialEq, Eq)]
pub enum FormContent {
    Text(String),
    File { name: String, bytes: Vec<u8> },
}

/// A part of a multipart form.
#[derive(Debug, PartialEq, Eq)]
pub struct FormPart {
    pub key: String,
    pub content: FormContent,
}

/// A request body that is ready to be sent.
#[derive(Debug, PartialEq, Eq)]
pub enum PreparedRequestBody {
    Empty,
    Text(String),
    Binary(Vec<u8>),
    Multipart(Vec<FormPart>),
}

pub enum FormContentView {
    Text(Seq<char>),
    File { name: Seq<char>, bytes: Seq<u8> },
}

#[verifier::ext_equal]
pub struct FormPartView {
    pub key: Seq<char>,
    pub content: FormContentView,
}

pub enum PreparedBodyView {
    Empty,
    Text(Seq<char>),
    Binary(Seq<u8>),
    Multipart(Seq<FormPartView>),
}

impl View for FormPart {
    type V = FormPartView;

    open spec fn view(&self) -> FormPartView {
        FormPartView {
            key: self.key@,
            content: match self.content {
                FormContent::Text(value) => FormContentView::Text(value@),
                FormContent::File { name, bytes } => FormContentView::File {
                    name: name@,
                    bytes: bytes@,
                },
            },
        }
    }
}

impl View for PreparedRequestBody {
    type V = PreparedBodyView;

    open spec fn view(&self) -> PreparedBodyView {
        match self {
            PreparedRequestBody::Empty => PreparedBodyView::Empty,
            PreparedRequestBody::Text(body) => PreparedBodyView::Text(body@),
            PreparedRequestBody::Binary(body) => PreparedBodyView::Binary(body@),
            PreparedRequestBody::Multipart(parts) => PreparedBodyView::Multipart(
                text::views(parts@),
            ),
        }
    }
}

/// The length in bytes of a body of known size.
pub open spec fn known_length(body: PreparedBodyView) -> Option<nat> {
    match body {
        PreparedBodyView::Text(body) => Some(encode_utf8(body).len()),
        PreparedBodyView::Binary(body) => Some(body.len()),
        PreparedBodyView::Empty => None,
        PreparedBodyView::Multipart(parts) => None,
    }
}

impl PreparedRequestBody {
    pub fn has_body(&self) -> (r: bool)
        ensures
            r == !(self@ is Empty),
    {
        match self {
            PreparedRequestBody::Empty => false,
            _ => true,
        }
    }

    pub fn known_content_length(&self) -> (r: Option<usize>)
        ensures
            match r {
                Some(length) => known_length(self@) == Some(length as nat),
                None => known_length(self@) is None,
            },
    {
        match self {
            PreparedRequestBody::Text(body) => Some(body.as_str().as_bytes().len()),
            PreparedRequestBody::Binary(body) => Some(body.len()),
            PreparedRequestBody::Empty => None,
            PreparedRequestBody::Multipart(_) => None,
        }
    }
}

/// The file that a value names: `@` and a path.
pub open spec fn file_reference(value: Seq<char>) -> Option<Seq<char>> {
    match text::after_char(value, '@') {
        Some(path) => Some(text::trim(path)),
        None => None,
    }
}

pub fn file_path(value: &str) -> (r: Option<String>)
    ensures
        text::opt(r) == file_reference(value@),
{
    match strip_char(value, '@') {
        Some(path) => Some(trimmed(path.as_str())),
        None => None,
    }
}

/// The files that a form names, in order.
pub open spec fn form_files(fields: Seq<(Seq<char>, Seq<char>)>) -> Seq<Seq<char>> {
    fields.filter_map(|field: (Seq<char>, Seq<char>)| file_reference(field.1))
}

/// The files whose contents a body consists of, in order; or why it cannot be made.
pub open spec fn body_files(mode: Seq<char>, body: Seq<char>) -> Result<Seq<Seq<char>>, Seq<char>> {
    if mode == "binary"@ {
        match file_reference(text::trim(body)) {
            Some(path) => if path.len() == 0 {
                Err("Binary body uses '@' but no file path was provided."@)
            } else {
                Ok(seq![path])
            },
            None => Ok(Seq::empty()),
        }
    } else if mode == "form-data"@ {
        Ok(form_files(body_fields(body)))
    } else {
        Ok(Seq::empty())
    }
}

fn form_file_paths(fields: &Vec<(String, String)>) -> (paths: Vec<String>)
    ensures
        text::views(paths@) == form_files(text::views(fields@)),
{
    let mut paths: Vec<String> = Vec::new();
    let ghost all = text::views(fields@);
    let ghost f = |field: (Seq<char>, Seq<char>)| file_reference(field.1);
    let mut i: usize = 0;
    assert(text::views(paths@) =~= all.take(0).filter_map(f));
    while i < fields.len()
        invariant
            i <= fields@.len(),
            all == text::views(fields@),
            f == (|field: (Seq<char>, Seq<char>)| file_reference(field.1)),
            text::views(paths@) == all.take(i as int).filter_map(f),
        decreases fields@.len() - i,
    {
        proof {
            all.lemma_filter_map_take_succ(f, i as int);
        }
        if let Some(path) = file_path(fields[i].1.as_str()) {
            proof {
                text::lemma_views_push(paths@, path);
            }
            paths.push(path);
        }
        i += 1;
    }
    assert(all.take(all.len() as int) =~= all);
    paths
}

pub fn body_file_paths(body_mode: &str, resolved_body: &str) -> (r: Result<Vec<String>, String>)
    ensures
        match r {
            Ok(paths) => body_files(body_mode@, resolved_body@) == Ok::<Seq<Seq<char>>, Seq<char>>(
                text::views(paths@),
            ),
            Err(message) => body_files(body_mode@, resolved_body@) == Err::<
                Seq<Seq<char>>,
                Seq<char>,
            >(message@),
        },
{
    if same_text(body_mode, "binary") {
        let content = trimmed(resolved_body);
        match file_path(content.as_str()) {
            Some(path) => {
                if path.as_str().is_empty() {
                    return Err("Binary body uses '@' but no file path was provided.".to_owned());
                }
                let paths = vec![path];
                assert(text::views(paths@) =~= seq![path@]);
                Ok(paths)
            },
            None => {
                let paths: Vec<String> = Vec::new();
                assert(text::views(paths@) =~= Seq::empty());
                Ok(paths)
            },
        }
    } else if same_text(body_mode, "form-data") {
        Ok(form_file_paths(&parse_body_fields(resolved_body)))
    } else {
        let paths: Vec<String> = Vec::new();
        assert(text::views(paths@) =~= Seq::empty());
        Ok(paths)
    }
}

/// The name under which a file is uploaded.
pub open spec fn upload_name(file: LoadedFile) -> Seq<char> {
    match file.name {
        Some(name) => name@,
        None => "upload.bin"@,
    }
}

/// The parts of a form, the contents of its files being given in order.
pub open spec fn form_parts(
    fields: Seq<(Seq<char>, Seq<char>)>,
    files: Seq<LoadedFile>,
) -> Seq<FormPartView>
    decreases fields.len(),
{
    if fields.len() == 0 {
        Seq::empty()
    } else {
        let last = fields.last();
        let rest = fields.drop_last();
        form_parts(rest, files).push(
            FormPartView {
                key: last.0,
                content: match file_reference(last.1) {
                    Some(path) => {
                        let file = files[form_files(rest).len() as int];
                        FormContentView::File { name: upload_name(file), bytes: file.bytes@ }
                    },
                    None => FormContentView::Text(last.1),
                },
            },
        )
    }
}

/// The body that is sent in a mode, the contents of the files that it names being given.
pub open spec fn prepared_body(
    mode: Seq<char>,
    body: Seq<char>,
    files: Seq<LoadedFile>,
) -> PreparedBodyView {
    if mode == "none"@ {
        PreparedBodyView::Empty
    } else if mode == "form-data"@ {
        if body_fields(body).len() == 0 {
            PreparedBodyView::Empty
        } else {
            PreparedBodyView::Multipart(form_parts(body_fields(body), files))
        }
    } else if body.len() == 0 {
        PreparedBodyView::Empty
    } else if mode == "binary"@ {
        match file_reference(text::trim(body)) {
            Some(path) => PreparedBodyView::Binary(files[0].bytes@),
            None => PreparedBodyView::Binary(encode_utf8(body)),
        }
    } else {
        PreparedBodyView::Text(body)
    }
}

fn build_form(fields: Vec<(String, String)>, files: Vec<LoadedFile>) -> (parts: Vec<FormPart>)
    requires
        files@.len() == form_files(text::views(fields@)).len(),
    ensures
        text::views(parts@) == form_parts(text::views(fields@), files@),
{
    let mut parts: Vec<FormPart> = Vec::new();
    let ghost all = text::views(fields@);
    let ghost f = |field: (Seq<char>, Seq<char>)| file_reference(field.1);
    let count: usize = files.len();
    let mut used: usize = 0;
    let mut i: usize = 0;
    assert(all.take(0).filter_map(f).len() == 0);
    assert(text::views(parts@) =~= form_parts(all.take(0), files@));
    while i < fields.len()
        invariant
            i <= fields@.len(),
            all == text::views(fields@),
            f == (|field: (Seq<char>, Seq<char>)| file_reference(field.1)),
            count == files@.len(),
            files@.len() == form_files(all).len(),
            used == form_files(all.take(i as int)).len(),
            text::views(parts@) == form_parts(all.take(i as int), files@),
        decreases fields@.len() - i,
    {
        proof {
            all.lemma_filter_map_take_succ(f, i as int);
            lemma_form_files_prefix(all, i + 1);
            assert(all.take(i + 1).drop_last() =~= all.take(i as int));
        }
        let content = match file_path(fields[i].1.as_str()) {
            Some(_) => {
                let name = match &files[used].name {
                    Some(name) => name.clone(),
                    None => "upload.bin".to_owned(),
                };
                let bytes = files[used].bytes.clone();
                assert(bytes@ =~= files@[used as int].bytes@);
                used += 1;
                FormContent::File { name, bytes }
            },
            None => FormContent::Text(fields[i].1.clone()),
        };
        let part = FormPart { key: fields[i].0.clone(), content };
        proof {
            text::lemma_views_push(parts@, part);
        }
        parts.push(part);
        i += 1;
    }
    assert(all.take(all.len() as int) =~= all);
    parts
}

proof fn lemma_form_files_prefix(fields: Seq<(Seq<char>, Seq<char>)>, n: int)
    requires
        0 <= n <= fields.len(),
    ensures
        form_files(fields.take(n)).len() <= form_files(fields).len(),
    decreases fields.len() - n,
{
    if n < fields.len() {
        lemma_form_files_prefix(fields, n + 1);
        fields.lemma_filter_map_take_succ(
            |field: (Seq<char>, Seq<char>)| file_reference(field.1),
            n,
        );
    } else {
        assert(fields.take(n) =~= fields);
    }
}

/// Makes the body, given the contents of the files that `body_file_paths` names.
pub fn build_prepared_request_body(
    body_mode: &str,
    resolved_body: &str,
    files: Vec<LoadedFile>,
) -> (r: PreparedRequestBody)
    requires
        body_files(body_mode@, resolved_body@) is Ok,
        files@.len() == body_files(body_mode@, resolved_body@)->Ok_0.len(),
    ensures
        r@ == prepared_body(body_mode@, resolved_body@, files@),
{
    proof {
        reveal_strlit("none");
        reveal_strlit("binary");
        reveal_strlit("form-data");
    }
    if same_text(body_mode, "none") {
        PreparedRequestBody::Empty
    } else if same_text(body_mode, "form-data") {
        let fields = parse_body_fields(resolved_body);
        if fields.len() == 0 {
            PreparedRequestBody::Empty
        } else {
            assert(body_mode@ != "binary"@) by {
                assert("form-data"@.len() != "binary"@.len());
            }
            PreparedRequestBody::Multipart(build_form(fields, files))
        }
    } else if resolved_body.is_empty() {
        PreparedRequestBody::Empty
    } else if same_text(body_mode, "binary") {
        let content = trimmed(resolved_body);
        match file_path(content.as_str()) {
            Some(_) => {
                let bytes = files[0].bytes.clone();
                assert(bytes@ =~= files@[0].bytes@);
                PreparedRequestBody::Binary(bytes)
            },
            None => {
                let bytes = resolved_body.as_bytes_vec();
                PreparedRequestBody::Binary(bytes)
            },
        }
    } else {
        PreparedRequestBody::Text(resolved_body.to_owned())
    }
}

/// Whether a body of the mode is sent at all, whatever its files hold.
pub open spec fn sends_body(mode: Seq<char>, body: Seq<char>) -> bool {
    if mode == "none"@ {
        false
    } else if mode == "form-data"@ {
        body_fields(body).len() > 0
    } else {
        body.len() > 0
    }
}

pub fn has_request_body(body_mode: &str, resolved_body: &str) -> (r: bool)
    ensures
        r == sends_body(body_mode@, resolved_body@),
{
    if same_text(body_mode, "none") {
        false
    } else if same_text(body_mode, "form-data") {
        parse_body_fields(resolved_body).len() > 0
    } else {
        !resolved_body.is_empty()
    }
}

/// Whether a body is sent does not depend on what its files hold.
pub proof fn law_body_is_sent(mode: Seq<char>, body: Seq<char>, files: Seq<LoadedFile>)
    ensures
        sends_body(mode, body) <==> !(prepared_body(mode, body, files) is Empty),
{
}

// ---------------------------------------------------------------------------
// Laws
// ---------------------------------------------------------------------------

/// The names of the modes, whatever their case and the space around them.
pub proof fn law_names_of_modes(name: Seq<char>, plain: Seq<char>)
    requires
        plain == text::ascii_lower(text::trim(name)),
    ensures
        plain == "none"@ ==> body_mode(name) == "none"@,
        plain == "raw"@ || plain == "graphql"@ || plain.len() == 0 ==> body_mode(name) == "raw"@,
        plain == "urlencoded"@ || plain == "x-www-form-urlencoded"@ ==> body_mode(name)
            == "urlencoded"@,
        plain == "formdata"@ || plain == "form-data"@ || plain == "multipart/form-data"@
            ==> body_mode(name) == "form-data"@,
        plain == "binary"@ || plain == "file"@ ==> body_mode(name) == "binary"@,
{
    reveal_strlit("none");
    reveal_strlit("raw");
    reveal_strlit("graphql");
    reveal_strlit("urlencoded");
    reveal_strlit("x-www-form-urlencoded");
    reveal_strlit("formdata");
    reveal_strlit("form-data");
    reveal_strlit("multipart/form-data");
    reveal_strlit("binary");
    reveal_strlit("file");
    assert("raw"@[0] == 'r' && "graphql"@[0] == 'g' && "none"@[0] == 'n');
    assert("urlencoded"@[0] == 'u' && "x-www-form-urlencoded"@[0] == 'x');
    assert("formdata"@[1] == 'o' && "form-data"@[1] == 'o' && "multipart/form-data"@[0] == 'm');
    assert("binary"@[0] == 'b' && "file"@[1] == 'i');
    assert("formdata"@[0] == 'f' && "form-data"@[0] == 'f' && "file"@[0] == 'f');
}

/// An item of a body states a field as `key=value`, the value being all that comes behind the
/// first `=`; a bare key states an empty value.
pub proof fn law_item_states_a_field(key: Seq<char>, value: Seq<char>)
    requires
        is_plain_field((key, value)),
    ensures
        body_fields(key + "="@ + value) == seq![(key, value)],
        value.len() == 0 ==> body_fields(key) == seq![(key, value)],
        field_text((key, value)) == Some(
            if value.len() == 0 {
                key
            } else {
                key + "="@ + value
            },
        ),
{
    reveal_strlit("=");
    let f = |item: Seq<char>| body_field(item);
    let item = key + "="@ + value;
    lemma_field_is_read((key, value));
    text::lemma_trimmed_ends(key);
    if value.len() == 0 {
        assert(value =~= Seq::empty());
        assert(item[0] == key[0]);
        assert(text::trim(item) == item);
        assert forall|j: int| 0 <= j < key.len() implies item[j] != '=' by {
            assert(key.contains(key[j]));
        }
        text::lemma_first_of(item, '=', '=', key.len() as int);
        assert(item.take(key.len() as int) =~= key);
        assert(item.skip(key.len() as int + 1) =~= value);
        lemma_one_item(key);
        Seq::lemma_filter_map_singleton(key, f);
    }
    assert forall|c: char| (c == '\n' || c == '&') implies !item.contains(c) by {
        if item.contains(c) {
            let j = choose|j: int| 0 <= j < item.len() && item[j] == c;
            if j < key.len() {
                assert(key.contains(key[j]));
            } else if j > key.len() {
                assert(value.contains(value[j - key.len() - 1]));
            }
        }
    }
    lemma_one_item(item);
    Seq::lemma_filter_map_singleton(item, f);
}

proof fn lemma_one_item(item: Seq<char>)
    requires
        !item.contains('\n'),
        !item.contains('&'),
    ensures
        text::split_at_any(item, '\n', '&') == seq![item],
{
    assert forall|j: int| 0 <= j < item.len() implies item[j] != '\n' && item[j] != '&' by {
        assert(item.contains(item[j]));
    }
    text::lemma_first_of(item, '\n', '&', item.len() as int);
}

/// A line break or `&` parts the fields of a body: those before it come first.
pub proof fn law_fields_are_parted(a: Seq<char>, b: Seq<char>)
    ensures
        body_fields(a + "&"@ + b) == body_fields(a) + body_fields(b),
        body_fields(a + "\n"@ + b) == body_fields(a) + body_fields(b),
{
    reveal_strlit("&");
    reveal_strlit("\n");
    let f = |item: Seq<char>| body_field(item);
    assert("&"@ =~= seq!['&']);
    assert("\n"@ =~= seq!['\n']);
    text::lemma_split_in_turn(a, b, '&', '\n', '&');
    text::lemma_split_in_turn(a, b, '\n', '\n', '&');
    text::lemma_filter_map_in_turn(
        text::split_at_any(a, '\n', '&'),
        text::split_at_any(b, '\n', '&'),
        f,
    );
}

/// Text goes as it is: in the modes for raw and URL-encoded bodies what is sent is the body
/// itself, and nothing where it is empty or the mode is that for no body. No file is read.
pub proof fn law_text_is_sent_as_it_is(
    mode: Seq<char>,
    body: Seq<char>,
    files: Seq<LoadedFile>,
)
    ensures
        mode == "none"@ ==> prepared_body(mode, body, files) == PreparedBodyView::Empty,
        mode == "raw"@ || mode == "urlencoded"@ ==> prepared_body(mode, body, files) == (
        if body.len() == 0 {
            PreparedBodyView::Empty
        } else {
            PreparedBodyView::Text(body)
        }),
        mode == "none"@ || mode == "raw"@ || mode == "urlencoded"@ ==> body_files(mode, body)
            == Ok::<Seq<Seq<char>>, Seq<char>>(Seq::empty()),
{
    lemma_modes_differ();
}

/// The names of the modes are different.
pub proof fn lemma_modes_differ()
    ensures
        "none"@ != "raw"@ && "none"@ != "urlencoded"@ && "none"@ != "form-data"@ && "none"@
            != "binary"@,
        "raw"@ != "urlencoded"@ && "raw"@ != "form-data"@ && "raw"@ != "binary"@,
        "urlencoded"@ != "form-data"@ && "urlencoded"@ != "binary"@ && "form-data"@ != "binary"@,
{
    reveal_strlit("none");
    reveal_strlit("raw");
    reveal_strlit("urlencoded");
    reveal_strlit("form-data");
    reveal_strlit("binary");
    assert("none"@[0] == 'n' && "raw"@[0] == 'r' && "urlencoded"@[0] == 'u');
    assert("form-data"@[0] == 'f' && "binary"@[0] == 'b');
}

/// A binary body that is `@` and a path is the content of that file; any other is sent as its
/// bytes. `@` alone is refused.
pub proof fn law_binary_body_is_a_file_or_bytes(
    path: Seq<char>,
    body: Seq<char>,
    files: Seq<LoadedFile>,
)
    requires
        text::trim(path) == path,
    ensures
        path.len() > 0 ==> body_files("binary"@, "@"@ + path) == Ok::<Seq<Seq<char>>, Seq<char>>(
            seq![path],
        ) && prepared_body("binary"@, "@"@ + path, files) == PreparedBodyView::Binary(
            files[0].bytes@,
        ),
        path.len() == 0 ==> body_files("binary"@, "@"@ + path) is Err,
        body.len() > 0 && (text::is_blank(body) || text::trim(body)[0] != '@') ==> body_files(
            "binary"@,
            body,
        ) == Ok::<Seq<Seq<char>>, Seq<char>>(Seq::empty()) && prepared_body("binary"@, body, files)
            == PreparedBodyView::Binary(encode_utf8(body)),
        prepared_body("binary"@, Seq::empty(), files) == PreparedBodyView::Empty,
{
    lemma_modes_differ();
    reveal_strlit("@");
    let whole = "@"@ + path;
    if path.len() > 0 {
        text::lemma_trimmed_ends(path);
        assert(whole.last() == path.last());
    } else {
        assert(whole =~= "@"@);
    }
    assert(text::trim(whole) == whole);
    assert(whole.skip(1) =~= path);
}

/// Whether a value names a file.
pub open spec fn names_file(value: Seq<char>) -> bool {
    value.len() > 0 && value[0] == '@'
}

/// How many of the first `n` fields name a file.
pub open spec fn files_before(fields: Seq<(Seq<char>, Seq<char>)>, n: int) -> int
    decreases n,
{
    if n <= 0 {
        0
    } else if names_file(fields[n - 1].1) {
        files_before(fields, n - 1) + 1
    } else {
        files_before(fields, n - 1)
    }
}

/// A form has one part for each field, in order and under its key: the value as text, or, where
/// that is `@` and a path, the file of that path with the bytes that were read for it.
pub proof fn law_form_has_a_part_for_each_field(
    body: Seq<char>,
    files: Seq<LoadedFile>,
    i: int,
)
    requires
        0 <= i < body_fields(body).len(),
        files.len() == files_before(body_fields(body), body_fields(body).len() as int),
    ensures
        ({
            let fields = body_fields(body);
            let k = files_before(fields, i);
            &&& body_files("form-data"@, body) matches Ok(paths) && paths.len() == files.len()
                && (names_file(fields[i].1) ==> 0 <= k < paths.len() && paths[k] == text::trim(
                fields[i].1.skip(1),
            ))
            &&& prepared_body("form-data"@, body, files) matches PreparedBodyView::Multipart(parts)
                && parts.len() == fields.len() && parts[i].key == fields[i].0 && parts[i].content
                == (if names_file(fields[i].1) {
                FormContentView::File {
                    name: match files[k].name {
                        Some(name) => name@,
                        None => "upload.bin"@,
                    },
                    bytes: files[k].bytes@,
                }
            } else {
                FormContentView::Text(fields[i].1)
            })
        }),
{
    lemma_modes_differ();
    let fields = body_fields(body);
    lemma_form(fields, files, fields.len() as int, i);
    assert(fields.take(fields.len() as int) =~= fields);
}

proof fn lemma_form(
    fields: Seq<(Seq<char>, Seq<char>)>,
    files: Seq<LoadedFile>,
    n: int,
    i: int,
)
    requires
        0 <= i < n <= fields.len(),
    ensures
        ({
            let paths = form_files(fields.take(n));
            let parts = form_parts(fields.take(n), files);
            let k = files_before(fields, i);
            &&& paths.len() == files_before(fields, n)
            &&& names_file(fields[i].1) ==> 0 <= k < paths.len() && paths[k] == text::trim(
                fields[i].1.skip(1),
            )
            &&& parts.len() == n
            &&& parts[i].key == fields[i].0
            &&& parts[i].content == (if names_file(fields[i].1) {
                FormContentView::File { name: upload_name(files[k]), bytes: files[k].bytes@ }
            } else {
                FormContentView::Text(fields[i].1)
            })
        }),
    decreases n,
{
    let f = |field: (Seq<char>, Seq<char>)| file_reference(field.1);
    lemma_file_count(fields, n - 1);
    fields.lemma_filter_map_take_succ(f, n - 1);
    assert(fields.take(n).drop_last() =~= fields.take(n - 1));
    assert(fields.take(n).last() == fields[n - 1]);
    lemma_part_count(fields.take(n - 1), files);
    if i < n - 1 {
        lemma_form(fields, files, n - 1, i);
        let paths = form_files(fields.take(n - 1));
        let k = files_before(fields, i);
        if names_file(fields[i].1) {
            assert(form_files(fields.take(n))[k] == paths[k]);
        }
    }
}

proof fn lemma_part_count(fields: Seq<(Seq<char>, Seq<char>)>, files: Seq<LoadedFile>)
    ensures
        form_parts(fields, files).len() == fields.len(),
    decreases fields.len(),
{
    if fields.len() > 0 {
        lemma_part_count(fields.drop_last(), files);
    }
}

proof fn lemma_file_count(fields: Seq<(Seq<char>, Seq<char>)>, n: int)
    requires
        0 <= n <= fields.len(),
    ensures
        form_files(fields.take(n)).len() == files_before(fields, n),
    decreases n,
{
    let f = |field: (Seq<char>, Seq<char>)| file_reference(field.1);
    if n > 0 {
        lemma_file_count(fields, n - 1);
        fields.lemma_filter_map_take_succ(f, n - 1);
    } else {
        assert(fields.take(0).filter_map(f) =~= Seq::empty());
    }
}

/// The content type follows from the mode; a raw body that begins with `{` or `[` is JSON, and
/// any other is plain text.
pub proof fn law_content_type_follows_the_mode(body: Seq<char>, space: Seq<char>, c: char)
    requires
        forall|i: int| 0 <= i < space.len() ==> text::is_whitespace(#[trigger] space[i]),
        !text::is_whitespace(c),
    ensures
        content_type("none"@, body) is None,
        content_type("form-data"@, body) is None,
        content_type("urlencoded"@, body) == Some("application/x-www-form-urlencoded"@),
        content_type("binary"@, body) == Some("application/octet-stream"@),
        content_type("raw"@, space + seq![c] + body) == Some(
            if c == '{' || c == '[' {
                "application/json"@
            } else {
                "text/plain"@
            },
        ),
        content_type("raw"@, space) == Some("text/plain"@),
{
    lemma_modes_differ();
    lemma_leading_space(space, seq![c] + body);
    assert(space + seq![c] + body =~= space + (seq![c] + body));
    lemma_leading_space(space, Seq::empty());
    assert(space + Seq::<char>::empty() =~= space);
}

proof fn lemma_leading_space(space: Seq<char>, rest: Seq<char>)
    requires
        forall|i: int| 0 <= i < space.len() ==> text::is_whitespace(#[trigger] space[i]),
        rest.len() > 0 ==> !text::is_whitespace(rest[0]),
    ensures
        text::trim_start(space + rest) == rest,
    decreases space.len(),
{
    if space.len() > 0 {
        let less = space.drop_first();
        assert(text::is_whitespace(space[0]));
        assert forall|i: int| 0 <= i < less.len() implies text::is_whitespace(
            #[trigger] less[i],
        ) by {
            assert(less[i] == space[i + 1]);
        }
        lemma_leading_space(less, rest);
        assert((space + rest).drop_first() =~= less + rest);
    } else {
        assert(space + rest =~= rest);
    }
}

/// A text or binary body of a request that does not state its length is announced with the
/// number of its bytes, an empty one of a method that usually carries a body with zero, and no
/// other.
pub proof fn law_length_is_announced(
    method: Seq<char>,
    body: Seq<char>,
    bytes: Seq<u8>,
    parts: Seq<FormPartView>,
)
    ensures
        known_length(PreparedBodyView::Text(body)) == Some(encode_utf8(body).len()),
        known_length(PreparedBodyView::Binary(bytes)) == Some(bytes.len()),
        known_length(PreparedBodyView::Empty) is None,
        known_length(PreparedBodyView::Multipart(parts)) is None,
        forall|n: usize|
            #![trigger text::decimal(n as nat)]
            default_content_length(method, false, Some(n), true) == Some(text::decimal(n as nat)),
        default_content_length(method, false, None, true) is None,
        default_content_length(method, false, None, false) == (if method == "POST"@ || method
            == "PUT"@ || method == "PATCH"@ {
            Some("0"@)
        } else {
            None
        }),
        forall|n: Option<usize>, has: bool|
            (#[trigger] default_content_length(method, true, n, has)) is None,
{
}

} // verus!
