//! What the request editor shows of a request, and the table in which a body is edited.
use crate::models::{Endpoint, KeyValue, ResponseScript};
use crate::request_body;
use crate::request_body::{normalize_body_mode, parse_body_fields, serialize_body_fields};
use crate::text;
use crate::text::{blank, concat3, decimal_text, same_text};
use vstd::prelude::*;

verus! {

// ---------------------------------------------------------------------------
// Titles
// ---------------------------------------------------------------------------

/// How many of the pairs have a name.
pub open spec fn named(pairs: Seq<(Seq<char>, Seq<char>)>) -> nat {
    pairs.filter(|pair: (Seq<char>, Seq<char>)| !text::is_blank(pair.0)).len()
}

proof fn lemma_named_one_more(pairs: Seq<(Seq<char>, Seq<char>)>, i: int)
    requires
        0 <= i < pairs.len(),
    ensures
        named(pairs.take(i + 1)) == named(pairs.take(i)) + (if text::is_blank(pairs[i].0) {
            0nat
        } else {
            1nat
        }),
{
    reveal(Seq::filter);
    assert(pairs.take(i + 1).drop_last() =~= pairs.take(i));
    assert(pairs.take(i + 1).last() == pairs[i]);
}

fn count_named(pairs: &Vec<KeyValue>) -> (n: usize)
    ensures
        n == named(text::views(pairs@)),
{
    let ghost all = text::views(pairs@);
    let mut n: usize = 0;
    let mut i: usize = 0;
    reveal(Seq::filter);
    assert(named(all.take(0)) == 0);
    while i < pairs.len()
        invariant
            i <= pairs@.len(),
            all == text::views(pairs@),
            n <= i,
            n == named(all.take(i as int)),
        decreases pairs@.len() - i,
    {
        proof {
            lemma_named_one_more(all, i as int);
        }
        if !blank(pairs[i].key.as_str()) {
            n += 1;
        }
        i += 1;
    }
    assert(all.take(all.len() as int) =~= all);
    n
}

fn count_rules(scripts: &Vec<ResponseScript>) -> (n: usize)
    ensures
        n == named(text::views(scripts@)),
{
    let ghost all = text::views(scripts@);
    let mut n: usize = 0;
    let mut i: usize = 0;
    reveal(Seq::filter);
    assert(named(all.take(0)) == 0);
    while i < scripts.len()
        invariant
            i <= scripts@.len(),
            all == text::views(scripts@),
            n <= i,
            n == named(all.take(i as int)),
        decreases scripts@.len() - i,
    {
        proof {
            lemma_named_one_more(all, i as int);
        }
        if !blank(scripts[i].extract_key.as_str()) {
            n += 1;
        }
        i += 1;
    }
    assert(all.take(all.len() as int) =~= all);
    n
}

/// The title of the query parameters, which counts those with a name.
pub fn params_title(endpoint: &Endpoint) -> (r: String)
    ensures
        r@ == "Params ("@ + text::decimal(named(endpoint@.query_params)) + ")"@,
{
    concat3("Params (", decimal_text(count_named(&endpoint.query_params) as u64).as_str(), ")")
}

/// The title of the headers, which counts those with a name.
pub fn headers_title(headers: &Vec<KeyValue>) -> (r: String)
    ensures
        r@ == "Headers ("@ + text::decimal(named(text::views(headers@))) + ")"@,
{
    concat3("Headers (", decimal_text(count_named(headers) as u64).as_str(), ")")
}

/// The title of the rules, which counts those that extract something if there are any.
pub fn scripts_title(endpoint: &Endpoint) -> (r: String)
    ensures
        r@ == (if named(endpoint@.scripts) > 0 {
            "Scripts ("@ + text::decimal(named(endpoint@.scripts)) + ")"@
        } else {
            "Scripts"@
        }),
{
    let n = count_rules(&endpoint.scripts);
    if n > 0 {
        concat3("Scripts (", decimal_text(n as u64).as_str(), ")")
    } else {
        "Scripts".to_owned()
    }
}

// ---------------------------------------------------------------------------
// The body
// ---------------------------------------------------------------------------

/// How a body mode is called.
pub fn body_mode_label(mode: &'static str) -> (r: &'static str)
    ensures
        r@ == (if mode@ == "urlencoded"@ {
            "x-www-form-urlencoded"@
        } else {
            mode@
        }),
{
    if same_text(mode, "urlencoded") {
        "x-www-form-urlencoded"
    } else {
        mode
    }
}

/// How a body is edited.
pub enum BodyEditor {
    /// In a table of fields, which stand in the body with the separator between them.
    Table { separator: &'static str, help: &'static str, hint: &'static str },
    /// As a text.
    Plain { hint: &'static str },
}

/// How a body of a mode is edited.
pub fn body_editor(mode: &str) -> (r: BodyEditor)
    ensures
        ({
            let mode = request_body::body_mode(mode@);
            match r {
                BodyEditor::Table { separator, help, hint } => {
                    ||| mode == "urlencoded"@ && separator@ == "&"@ && help@
                        == "Use the empty row to add URL-encoded fields."@ && hint@ == "value"@
                    ||| mode == "form-data"@ && separator@ == "\n"@ && help@
                        == "Use @/path/to/file in the value column to upload a file."@ && hint@
                        == "value or @/path/to/file"@
                },
                BodyEditor::Plain { hint } => mode != "urlencoded"@ && mode != "form-data"@ && hint@
                    == (if mode == "binary"@ {
                    "@/tmp/payload.bin"@
                } else {
                    "{\n  \"key\": \"${value}\"\n}"@
                }),
            }
        }),
{
    let mode = normalize_body_mode(mode);
    if same_text(mode, "urlencoded") {
        BodyEditor::Table {
            separator: "&",
            help: "Use the empty row to add URL-encoded fields.",
            hint: "value",
        }
    } else if same_text(mode, "form-data") {
        BodyEditor::Table {
            separator: "\n",
            help: "Use @/path/to/file in the value column to upload a file.",
            hint: "value or @/path/to/file",
        }
    } else if same_text(mode, "binary") {
        BodyEditor::Plain { hint: "@/tmp/payload.bin" }
    } else {
        BodyEditor::Plain { hint: "{\n  \"key\": \"${value}\"\n}" }
    }
}

/// The rows of the table: the fields of the body, and a spare one.
pub open spec fn rows(body: Seq<char>) -> Seq<(Seq<char>, Seq<char>)> {
    request_body::body_fields(body).push((Seq::empty(), Seq::empty()))
}

/// The rows of the table in which a body is edited.
pub fn body_rows(body: &str) -> (r: Vec<KeyValue>)
    ensures
        text::views(r@) == rows(body@),
{
    let fields = parse_body_fields(body);
    let ghost given = fields@;
    let mut r: Vec<KeyValue> = Vec::new();
    for field in it: fields
        invariant
            it.seq() == given,
            r@.len() == it.index(),
            forall|j: int| 0 <= j < r@.len() ==> (#[trigger] r@[j])@ == given[j]@,
    {
        assert(field == given[it.index() as int]);
        r.push(KeyValue { key: field.0, value: field.1 });
    }
    r.push(KeyValue { key: String::new(), value: String::new() });
    assert(text::views(r@) =~= rows(body@));
    r
}

/// Whether a row is the spare one, with nothing in it.
pub open spec fn is_spare(rows: Seq<(Seq<char>, Seq<char>)>, i: int) -> bool {
    i == rows.len() - 1 && text::is_blank(rows[i].0) && text::is_blank(rows[i].1)
}

/// Whether a row is the spare one, which cannot be removed.
pub fn is_spare_row(rows: &Vec<KeyValue>, index: usize) -> (r: bool)
    ensures
        r == (index < rows@.len() && is_spare(text::views(rows@), index as int)),
{
    index < rows.len() && index == rows.len() - 1 && blank(rows[index].key.as_str()) && blank(
        rows[index].value.as_str(),
    )
}

/// The rows without the one at a place, if there is one there.
pub open spec fn without_row(rows: Seq<(Seq<char>, Seq<char>)>, removed: Option<usize>) -> Seq<
    (Seq<char>, Seq<char>),
> {
    match removed {
        Some(i) => if i < rows.len() {
            rows.remove(i as int)
        } else {
            rows
        },
        None => rows,
    }
}

/// The body that the rows of a table make, without the row that was removed.
pub fn body_of_rows(rows: Vec<KeyValue>, removed: Option<usize>, separator: &str) -> (r: String)
    ensures
        r@ == text::join(
            request_body::field_texts(without_row(text::views(rows@), removed)),
            separator@,
        ),
{
    let ghost given = rows@;
    let mut rows = rows;
    match removed {
        Some(i) => {
            if i < rows.len() {
                rows.remove(i);
                assert(text::views(rows@) =~= text::views(given).remove(i as int));
            }
        },
        None => {},
    }
    serialize_body_fields(&rows, separator)
}

/// A table in which nothing was changed keeps the fields of the body.
pub proof fn law_untouched_table_keeps_fields(body: Seq<char>, separator: Seq<char>)
    requires
        separator == "\n"@ || separator == "&"@,
    ensures
        request_body::body_fields(
            text::join(request_body::field_texts(without_row(rows(body), None)), separator),
        ) == request_body::body_fields(body),
{
    let f = |field: (Seq<char>, Seq<char>)| request_body::field_text(field);
    let fields = request_body::body_fields(body);
    let all = rows(body);
    all.lemma_filter_map_take_succ(f, fields.len() as int);
    assert(all.take(fields.len() as int) =~= fields);
    assert(all.take(fields.len() as int + 1) =~= all);
    assert(text::is_blank(Seq::<char>::empty()));
    request_body::law_fields_are_read_once(body, separator);
}

/// A row that is removed from the table takes its field out of the body, and no other.
pub proof fn law_removed_row_leaves_the_body(body: Seq<char>, separator: Seq<char>, i: usize)
    requires
        separator == "\n"@ || separator == "&"@,
        i < request_body::body_fields(body).len(),
    ensures
        request_body::body_fields(
            text::join(
                request_body::field_texts(without_row(rows(body), Some(i))),
                separator,
            ),
        ) == request_body::body_fields(body).remove(i as int),
{
    let f = |field: (Seq<char>, Seq<char>)| request_body::field_text(field);
    let fields = request_body::body_fields(body);
    let rest = fields.remove(i as int);
    let all = without_row(rows(body), Some(i));
    assert(all =~= rest.push((Seq::empty(), Seq::empty())));
    all.lemma_filter_map_take_succ(f, rest.len() as int);
    assert(all.take(rest.len() as int) =~= rest);
    assert(all.take(rest.len() as int + 1) =~= all);
    assert(text::is_blank(Seq::<char>::empty()));
    request_body::lemma_fields_are_plain(body);
    assert forall|k: int| 0 <= k < rest.len() implies request_body::is_plain_field(
        #[trigger] rest[k],
    ) by {
        if k < i {
            assert(rest[k] == fields[k]);
        } else {
            assert(rest[k] == fields[k + 1]);
        }
    }
    request_body::law_written_fields_are_read(rest, separator);
}

/// A table shows each field of the body in a row of its own, and one spare row behind them.
pub proof fn law_table_shows_the_fields(key: Seq<char>, value: Seq<char>)
    requires
        request_body::is_plain_field((key, value)),
    ensures
        rows(key + "="@ + value) == seq![(key, value), (Seq::empty(), Seq::empty())],
{
    request_body::law_item_states_a_field(key, value);
    assert(rows(key + "="@ + value) =~= seq![(key, value), (Seq::empty(), Seq::empty())]);
}

/// The number of pairs with a name grows by one with each such pair, and by nothing else.
pub proof fn law_named_pairs_are_counted(
    pairs: Seq<(Seq<char>, Seq<char>)>,
    pair: (Seq<char>, Seq<char>),
)
    ensures
        named(Seq::empty()) == 0,
        named(pairs.push(pair)) == named(pairs) + (if text::is_blank(pair.0) {
            0nat
        } else {
            1nat
        }),
{
    reveal(Seq::filter);
    let all = pairs.push(pair);
    assert(all.drop_last() =~= pairs);
}

} // verus!
