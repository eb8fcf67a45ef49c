//! JSON values.
use crate::text;
use crate::text::{non_empty_trimmed, same_text};
use vstd::prelude::*;

verus! {

#[verifier::external_type_specification]
#[verifier::external_body]
pub struct ExternalValue(serde_json::Value);

#[verifier::external_type_specification]
#[verifier::external_body]
pub struct ExternalNumber(serde_json::Number);

/// A JSON value. The entries of a record are in the order in which they are walked.
pub enum Json {
    Null,
    Bool(bool),
    Number(serde_json::Number),
    Text(String),
    List(Vec<Json>),
    Record(Vec<(String, Json)>),
}

/// What a JSON value says.
#[verifier::ext_equal]
pub enum JsonTree {
    Null,
    Bool(bool),
    Number(serde_json::Number),
    Text(Seq<char>),
    List(Seq<JsonTree>),
    Record(Seq<(Seq<char>, JsonTree)>),
}

impl Json {
    pub open spec fn tree(self) -> JsonTree
        decreases self,
    {
        match self {
            Json::Null => JsonTree::Null,
            Json::Bool(flag) => JsonTree::Bool(flag),
            Json::Number(number) => JsonTree::Number(number),
            Json::Text(value) => JsonTree::Text(value@),
            Json::List(items) => JsonTree::List(
                Seq::new(
                    items@.len(),
                    |i: int|
                        if 0 <= i < items@.len() {
                            items@[i].tree()
                        } else {
                            JsonTree::Null
                        },
                ),
            ),
            Json::Record(entries) => JsonTree::Record(
                Seq::new(
                    entries@.len(),
                    |i: int|
                        if 0 <= i < entries@.len() {
                            (entries@[i].0@, entries@[i].1.tree())
                        } else {
                            (Seq::empty(), JsonTree::Null)
                        },
                ),
            ),
        }
    }
}

impl View for Json {
    type V = JsonTree;

    open spec fn view(&self) -> JsonTree {
        self.tree()
    }
}

/// The tree of a list or record is made of the trees of its parts.
pub proof fn lemma_tree(json: Json)
    ensures
        match json {
            Json::List(items) => json@ == JsonTree::List(text::views(items@)),
            Json::Record(entries) => json@ == JsonTree::Record(text::views(entries@)),
            _ => true,
        },
{
    match json {
        Json::List(items) => {
            assert(json@->List_0 =~= text::views(items@));
        },
        Json::Record(entries) => {
            assert(json@->Record_0 =~= text::views(entries@));
        },
        _ => {},
    }
}

// ---------------------------------------------------------------------------
// Reading
// ---------------------------------------------------------------------------

pub open spec fn as_text(tree: JsonTree) -> Option<Seq<char>> {
    match tree {
        JsonTree::Text(value) => Some(value),
        _ => None,
    }
}

pub open spec fn as_bool(tree: JsonTree) -> Option<bool> {
    match tree {
        JsonTree::Bool(flag) => Some(flag),
        _ => None,
    }
}

pub open spec fn as_record(tree: JsonTree) -> Option<Seq<(Seq<char>, JsonTree)>> {
    match tree {
        JsonTree::Record(fields) => Some(fields),
        _ => None,
    }
}

pub open spec fn as_list(tree: JsonTree) -> Option<Seq<JsonTree>> {
    match tree {
        JsonTree::List(items) => Some(items),
        _ => None,
    }
}

/// The value of a field of a record.
pub open spec fn field(fields: Seq<(Seq<char>, JsonTree)>, key: Seq<char>) -> Option<JsonTree>
    decreases fields.len(),
{
    if fields.len() == 0 {
        None
    } else if fields[0].0 == key {
        Some(fields[0].1)
    } else {
        field(fields.drop_first(), key)
    }
}

/// The text in a field.
pub open spec fn text_field(fields: Seq<(Seq<char>, JsonTree)>, key: Seq<char>) -> Option<
    Seq<char>,
> {
    match field(fields, key) {
        Some(value) => as_text(value),
        None => None,
    }
}

/// The text in a field without surrounding white space, where anything is left of it.
pub open spec fn content_field(fields: Seq<(Seq<char>, JsonTree)>, key: Seq<char>) -> Option<
    Seq<char>,
> {
    match text_field(fields, key) {
        Some(value) => text::trimmed_content(value),
        None => None,
    }
}

/// The truth value in a field.
pub open spec fn bool_field(fields: Seq<(Seq<char>, JsonTree)>, key: Seq<char>) -> Option<bool> {
    match field(fields, key) {
        Some(value) => as_bool(value),
        None => None,
    }
}

/// The record in a field.
pub open spec fn record_field(fields: Seq<(Seq<char>, JsonTree)>, key: Seq<char>) -> Option<
    Seq<(Seq<char>, JsonTree)>,
> {
    match field(fields, key) {
        Some(value) => as_record(value),
        None => None,
    }
}

impl Json {
    pub fn as_text(&self) -> (r: Option<&String>)
        ensures
            match r {
                Some(value) => as_text(self@) == Some(value@),
                None => as_text(self@) is None,
            },
    {
        match self {
            Json::Text(value) => Some(value),
            _ => None,
        }
    }

    pub fn as_bool(&self) -> (r: Option<bool>)
        ensures
            r == as_bool(self@),
    {
        match self {
            Json::Bool(flag) => Some(*flag),
            _ => None,
        }
    }

    pub fn as_record(&self) -> (r: Option<&Vec<(String, Json)>>)
        ensures
            match r {
                Some(entries) => as_record(self@) == Some(text::views(entries@)),
                None => as_record(self@) is None,
            },
            match r {
                Some(entries) => decreases_to!(*self => *entries),
                None => true,
            },
    {
        proof {
            lemma_tree(*self);
        }
        match self {
            Json::Record(entries) => Some(entries),
            _ => None,
        }
    }

    pub fn as_list(&self) -> (r: Option<&Vec<Json>>)
        ensures
            match r {
                Some(items) => as_list(self@) == Some(text::views(items@)),
                None => as_list(self@) is None,
            },
    {
        proof {
            lemma_tree(*self);
        }
        match self {
            Json::List(items) => Some(items),
            _ => None,
        }
    }
}

pub fn get<'a>(entries: &'a Vec<(String, Json)>, key: &str) -> (r: Option<&'a Json>)
    ensures
        match r {
            Some(value) => field(text::views(entries@), key@) == Some(value@),
            None => field(text::views(entries@), key@) is None,
        },
{
    let ghost all = text::views(entries@);
    let mut i: usize = 0;
    assert(all.skip(0) =~= all);
    while i < entries.len()
        invariant
            i <= entries@.len(),
            all == text::views(entries@),
            field(all, key@) == field(all.skip(i as int), key@),
        decreases entries@.len() - i,
    {
        if same_text(entries[i].0.as_str(), key) {
            assert(all.skip(i as int)[0] == all[i as int]);
            return Some(&entries[i].1);
        }
        assert(all.skip(i as int).drop_first() =~= all.skip(i + 1));
        i += 1;
    }
    None
}

pub fn get_text<'a>(entries: &'a Vec<(String, Json)>, key: &str) -> (r: Option<&'a String>)
    ensures
        match r {
            Some(value) => text_field(text::views(entries@), key@) == Some(value@),
            None => text_field(text::views(entries@), key@) is None,
        },
{
    match get(entries, key) {
        Some(value) => value.as_text(),
        None => None,
    }
}

pub fn get_content(entries: &Vec<(String, Json)>, key: &str) -> (r: Option<String>)
    ensures
        text::opt(r) == content_field(text::views(entries@), key@),
{
    match get_text(entries, key) {
        Some(value) => non_empty_trimmed(value.as_str()),
        None => None,
    }
}

pub fn get_bool(entries: &Vec<(String, Json)>, key: &str) -> (r: Option<bool>)
    ensures
        r == bool_field(text::views(entries@), key@),
{
    match get(entries, key) {
        Some(value) => value.as_bool(),
        None => None,
    }
}

pub fn get_record<'a>(entries: &'a Vec<(String, Json)>, key: &str) -> (r: Option<
    &'a Vec<(String, Json)>,
>)
    ensures
        match r {
            Some(inner) => record_field(text::views(entries@), key@) == Some(
                text::views(inner@),
            ),
            None => record_field(text::views(entries@), key@) is None,
        },
{
    match get(entries, key) {
        Some(value) => value.as_record(),
        None => None,
    }
}

impl Json {
    /// A value that says the same.
    pub fn copy(&self) -> (r: Json)
        ensures
            r@ == self@,
        decreases self,
    {
        match self {
            Json::Null => Json::Null,
            Json::Bool(flag) => Json::Bool(*flag),
            Json::Number(number) => Json::Number(copy_number(number)),
            Json::Text(content) => Json::Text(content.clone()),
            Json::List(items) => {
                let mut copies: Vec<Json> = Vec::new();
                let mut i: usize = 0;
                while i < items.len()
                    invariant
                        *self == Json::List(*items),
                        i <= items@.len(),
                        copies@.len() == i,
                        forall|j: int| 0 <= j < i ==> (#[trigger] copies@[j])@ == items@[j]@,
                    decreases items@.len() - i,
                {
                    assert(decreases_to!(*self => self->List_0));
                    assert(decreases_to!(items@ => items@[i as int]));
                    copies.push(items[i].copy());
                    i += 1;
                }
                let r = Json::List(copies);
                proof {
                    lemma_tree(*self);
                    lemma_tree(r);
                    assert(text::views(copies@) =~= text::views(items@));
                }
                r
            },
            Json::Record(entries) => {
                let mut copies: Vec<(String, Json)> = Vec::new();
                let mut i: usize = 0;
                while i < entries.len()
                    invariant
                        *self == Json::Record(*entries),
                        i <= entries@.len(),
                        copies@.len() == i,
                        forall|j: int| 0 <= j < i ==> (#[trigger] copies@[j])@ == entries@[j]@,
                    decreases entries@.len() - i,
                {
                    assert(decreases_to!(*self => self->Record_0));
                    assert(decreases_to!(entries@ => entries@[i as int]));
                    assert(decreases_to!(entries@[i as int] => entries@[i as int].1));
                    copies.push((entries[i].0.clone(), entries[i].1.copy()));
                    i += 1;
                }
                let r = Json::Record(copies);
                proof {
                    lemma_tree(*self);
                    lemma_tree(r);
                    assert(text::views(copies@) =~= text::views(entries@));
                }
                r
            },
        }
    }
}

// ---------------------------------------------------------------------------
// Values of `serde_json`
// ---------------------------------------------------------------------------

/// What a `serde_json::Value` holds. The entries of a map are in the order in which it is
/// walked.
pub uninterp spec fn value_tree(value: serde_json::Value) -> JsonTree;

/// What `serde_json::from_str` reads as a value from a text; the message where it fails.
pub uninterp spec fn json_reading(text: Seq<char>) -> Result<JsonTree, Seq<char>>;

/// The value that a text is read as; `None` where it is not JSON.
pub open spec fn parsed_json(text: Seq<char>) -> Option<JsonTree> {
    match json_reading(text) {
        Ok(tree) => Some(tree),
        Err(_) => None,
    }
}

/// How `serde_json::Number` displays a number.
pub uninterp spec fn number_text(number: serde_json::Number) -> Seq<char>;

/// How `serde_json::Value` displays a value, on one line.
pub uninterp spec fn compact_text(tree: JsonTree) -> Seq<char>;

/// How `serde_json::to_string_pretty` writes a value.
pub uninterp spec fn pretty_text(tree: JsonTree) -> Seq<char>;

/// One level of a `serde_json::Value`.
enum Node {
    Null,
    Bool(bool),
    Number(serde_json::Number),
    Text(String),
    List(Vec<serde_json::Value>),
    Record(Vec<(String, serde_json::Value)>),
}

spec fn value_trees(values: Seq<serde_json::Value>) -> Seq<JsonTree> {
    values.map_values(|value: serde_json::Value| value_tree(value))
}

spec fn value_fields(entries: Seq<(String, serde_json::Value)>) -> Seq<(Seq<char>, JsonTree)> {
    entries.map_values(|entry: (String, serde_json::Value)| (entry.0@, value_tree(entry.1)))
}

/// `serde_json::from_str` into a `serde_json::Value`. What it reads depends on the text alone.
#[verifier::external_body]
fn parse_value(input: &str) -> (r: Result<serde_json::Value, String>)
    ensures
        match r {
            Ok(value) => json_reading(input@) == Ok::<JsonTree, Seq<char>>(value_tree(value)),
            Err(message) => json_reading(input@) == Err::<JsonTree, Seq<char>>(message@),
        },
{
    serde_json::from_str::<serde_json::Value>(input).map_err(|err| err.to_string())
}

/// Takes a `serde_json::Value` apart by its variant; the entries of a map come in its own order.
#[verifier::external_body]
fn open_value(value: serde_json::Value) -> (r: Node)
    ensures
        value_tree(value) == (match r {
            Node::Null => JsonTree::Null,
            Node::Bool(flag) => JsonTree::Bool(flag),
            Node::Number(number) => JsonTree::Number(number),
            Node::Text(content) => JsonTree::Text(content@),
            Node::List(values) => JsonTree::List(value_trees(values@)),
            Node::Record(entries) => JsonTree::Record(value_fields(entries@)),
        }),
{
    match value {
        serde_json::Value::Null => Node::Null,
        serde_json::Value::Bool(flag) => Node::Bool(flag),
        serde_json::Value::Number(number) => Node::Number(number),
        serde_json::Value::String(content) => Node::Text(content),
        serde_json::Value::Array(values) => Node::List(values),
        serde_json::Value::Object(map) => Node::Record(map.into_iter().collect()),
    }
}

/// The fields with one more: in the place of its key, or in place of the value that the key had.
pub open spec fn with_field(
    fields: Seq<(Seq<char>, JsonTree)>,
    key: Seq<char>,
    value: JsonTree,
) -> Seq<(Seq<char>, JsonTree)>
    decreases fields.len(),
{
    if fields.len() == 0 || text::comes_before(key, fields[0].0) {
        seq![(key, value)] + fields
    } else if fields[0].0 == key {
        seq![(key, value)] + fields.drop_first()
    } else {
        seq![fields[0]] + with_field(fields.drop_first(), key, value)
    }
}

/// The fields in the order of their keys, each key with its last value.
pub open spec fn collected(fields: Seq<(Seq<char>, JsonTree)>) -> Seq<(Seq<char>, JsonTree)>
    decreases fields.len(),
{
    if fields.len() == 0 {
        Seq::empty()
    } else {
        with_field(collected(fields.drop_last()), fields.last().0, fields.last().1)
    }
}

/// Puts a `serde_json::Value` together. A `serde_json::Map` is ordered by its keys and keeps the
/// last value of each.
#[verifier::external_body]
fn close_value(node: Node) -> (r: serde_json::Value)
    ensures
        value_tree(r) == (match node {
            Node::Null => JsonTree::Null,
            Node::Bool(flag) => JsonTree::Bool(flag),
            Node::Number(number) => JsonTree::Number(number),
            Node::Text(content) => JsonTree::Text(content@),
            Node::List(values) => JsonTree::List(value_trees(values@)),
            Node::Record(entries) => JsonTree::Record(collected(value_fields(entries@))),
        }),
{
    match node {
        Node::Null => serde_json::Value::Null,
        Node::Bool(flag) => serde_json::Value::Bool(flag),
        Node::Number(number) => serde_json::Value::Number(number),
        Node::Text(content) => serde_json::Value::String(content),
        Node::List(values) => serde_json::Value::Array(values),
        Node::Record(entries) => serde_json::Value::Object(entries.into_iter().collect()),
    }
}

/// `serde_json::Number`'s `Display`. The text depends on the number alone.
#[verifier::external_body]
fn display_number(number: &serde_json::Number) -> (r: String)
    ensures
        r@ == number_text(*number),
{
    number.to_string()
}

/// `Clone` of a `serde_json::Number`: the same number.
#[verifier::external_body]
fn copy_number(number: &serde_json::Number) -> (r: serde_json::Number)
    ensures
        r == *number,
{
    number.clone()
}

/// `serde_json::Value`'s `Display`. The text depends on what the value holds alone.
#[verifier::external_body]
fn display_value(value: &serde_json::Value) -> (r: String)
    ensures
        r@ == compact_text(value_tree(*value)),
{
    value.to_string()
}

/// `serde_json::to_string_pretty`. The text depends on what the value holds alone.
#[verifier::external_body]
fn display_pretty(value: &serde_json::Value) -> (r: String)
    ensures
        r@ == pretty_text(value_tree(*value)),
{
    serde_json::to_string_pretty(value).unwrap_or_else(|_| value.to_string())
}

fn json_of(value: serde_json::Value) -> (r: Json)
    ensures
        r@ == value_tree(value),
    decreases value_tree(value),
{
    match open_value(value) {
        Node::Null => Json::Null,
        Node::Bool(flag) => Json::Bool(flag),
        Node::Number(number) => Json::Number(number),
        Node::Text(content) => Json::Text(content),
        Node::List(values) => {
            let ghost given = values@;
            let ghost all = value_trees(given);
            let mut items: Vec<Json> = Vec::new();
            for item in it: values
                invariant
                    it.seq() == given,
                    value_tree(value) == JsonTree::List(all),
                    all == value_trees(given),
                    items@.len() == it.index(),
                    forall|j: int| 0 <= j < items@.len() ==> (#[trigger] items@[j])@ == all[j],
            {
                assert(item == given[it.index() as int]);
                assert(all[it.index() as int] == value_tree(item));
                assert(decreases_to!(value_tree(value) => value_tree(value)->List_0));
                assert(decreases_to!(all => all[it.index() as int]));
                items.push(json_of(item));
            }
            let r = Json::List(items);
            proof {
                lemma_tree(r);
                assert(text::views(items@) =~= all);
            }
            r
        },
        Node::Record(entries) => {
            let ghost given = entries@;
            let ghost all = value_fields(given);
            let mut fields: Vec<(String, Json)> = Vec::new();
            for entry in it: entries
                invariant
                    it.seq() == given,
                    value_tree(value) == JsonTree::Record(all),
                    all == value_fields(given),
                    fields@.len() == it.index(),
                    forall|j: int|
                        0 <= j < fields@.len() ==> (#[trigger] fields@[j])@ == all[j],
            {
                let ghost n = it.index() as int;
                assert(entry == given[n]);
                assert(all[n] == (entry.0@, value_tree(entry.1)));
                assert(decreases_to!(value_tree(value) => value_tree(value)->Record_0));
                assert(decreases_to!(all => all[n]));
                assert(decreases_to!(all[n] => all[n].1));
                fields.push((entry.0, json_of(entry.1)));
            }
            let r = Json::Record(fields);
            proof {
                lemma_tree(r);
                assert(text::views(fields@) =~= all);
            }
            r
        },
    }
}

/// Reads a JSON text; the message where it is none.
pub fn read_json(input: &str) -> (r: Result<Json, String>)
    ensures
        match r {
            Ok(json) => json_reading(input@) == Ok::<JsonTree, Seq<char>>(json@),
            Err(message) => json_reading(input@) == Err::<JsonTree, Seq<char>>(message@),
        },
{
    match parse_value(input) {
        Ok(value) => Ok(json_of(value)),
        Err(message) => Err(message),
    }
}

/// Reads a JSON text.
pub fn parse_json(input: &str) -> (r: Option<Json>)
    ensures
        match r {
            Some(json) => parsed_json(input@) == Some(json@),
            None => parsed_json(input@) is None,
        },
{
    match read_json(input) {
        Ok(json) => Some(json),
        Err(_) => None,
    }
}

/// The value with the fields of each record collected.
pub open spec fn in_order(tree: JsonTree) -> JsonTree
    decreases tree,
{
    match tree {
        JsonTree::List(items) => JsonTree::List(items_in_order(items)),
        JsonTree::Record(fields) => JsonTree::Record(collected(fields_in_order(fields))),
        _ => tree,
    }
}

pub open spec fn items_in_order(items: Seq<JsonTree>) -> Seq<JsonTree>
    decreases items,
{
    if items.len() == 0 {
        Seq::empty()
    } else {
        items_in_order(items.drop_last()).push(in_order(items.last()))
    }
}

pub open spec fn fields_in_order(fields: Seq<(Seq<char>, JsonTree)>) -> Seq<(Seq<char>, JsonTree)>
    decreases fields,
{
    if fields.len() == 0 {
        Seq::empty()
    } else {
        fields_in_order(fields.drop_last()).push((fields.last().0, in_order(fields.last().1)))
    }
}

fn value_of(json: &Json) -> (r: serde_json::Value)
    ensures
        value_tree(r) == in_order(json@),
    decreases json,
{
    proof {
        lemma_tree(*json);
    }
    match json {
        Json::Null => close_value(Node::Null),
        Json::Bool(flag) => close_value(Node::Bool(*flag)),
        Json::Number(number) => close_value(Node::Number(copy_number(number))),
        Json::Text(content) => close_value(Node::Text(content.clone())),
        Json::List(items) => {
            let ghost given = text::views(items@);
            let mut values: Vec<serde_json::Value> = Vec::new();
            let mut i: usize = 0;
            assert(value_trees(values@) =~= items_in_order(given.take(0)));
            while i < items.len()
                invariant
                    *json == Json::List(*items),
                    given == text::views(items@),
                    i <= items@.len(),
                    value_trees(values@) == items_in_order(given.take(i as int)),
                decreases items@.len() - i,
            {
                assert(decreases_to!(*json => json->List_0));
                assert(decreases_to!(items@ => items@[i as int]));
                let value = value_of(&items[i]);
                proof {
                    assert(given.take(i + 1).drop_last() =~= given.take(i as int));
                    assert(value_trees(values@.push(value)) =~= value_trees(values@).push(
                        value_tree(value),
                    ));
                }
                values.push(value);
                i += 1;
            }
            assert(given.take(given.len() as int) =~= given);
            close_value(Node::List(values))
        },
        Json::Record(entries) => {
            let ghost given = text::views(entries@);
            let mut fields: Vec<(String, serde_json::Value)> = Vec::new();
            let mut i: usize = 0;
            assert(value_fields(fields@) =~= fields_in_order(given.take(0)));
            while i < entries.len()
                invariant
                    *json == Json::Record(*entries),
                    given == text::views(entries@),
                    i <= entries@.len(),
                    value_fields(fields@) == fields_in_order(given.take(i as int)),
                decreases entries@.len() - i,
            {
                assert(decreases_to!(*json => json->Record_0));
                assert(decreases_to!(entries@ => entries@[i as int]));
                assert(decreases_to!(entries@[i as int] => entries@[i as int].1));
                let entry = (entries[i].0.clone(), value_of(&entries[i].1));
                proof {
                    assert(given.take(i + 1).drop_last() =~= given.take(i as int));
                    assert(value_fields(fields@.push(entry)) =~= value_fields(fields@).push(
                        (entry.0@, value_tree(entry.1)),
                    ));
                }
                fields.push(entry);
                i += 1;
            }
            assert(given.take(given.len() as int) =~= given);
            close_value(Node::Record(fields))
        },
    }
}

/// A value as the text that it stands for where text is wanted: texts as they are, nothing for
/// null, anything else in JSON.
pub open spec fn plain_text(tree: JsonTree) -> Seq<char> {
    match tree {
        JsonTree::Null => Seq::empty(),
        JsonTree::Bool(flag) => if flag {
            "true"@
        } else {
            "false"@
        },
        JsonTree::Number(number) => number_text(number),
        JsonTree::Text(content) => content,
        _ => compact_text(in_order(tree)),
    }
}

pub fn json_value_to_string(value: &Json) -> (r: String)
    ensures
        r@ == plain_text(value@),
{
    match value {
        Json::Null => String::new(),
        Json::Bool(flag) => if *flag {
            "true".to_owned()
        } else {
            "false".to_owned()
        },
        Json::Number(number) => display_number(number),
        Json::Text(content) => content.clone(),
        Json::List(_) => display_value(&value_of(value)),
        Json::Record(_) => display_value(&value_of(value)),
    }
}

/// A value in JSON over several lines.
pub fn json_pretty(value: &Json) -> (r: String)
    ensures
        r@ == pretty_text(in_order(value@)),
{
    display_pretty(&value_of(value))
}

// ---------------------------------------------------------------------------
// Laws
// ---------------------------------------------------------------------------

/// A field of a record is the first that has the key; where none has it there is none.
pub proof fn law_field_is_the_first(fields: Seq<(Seq<char>, JsonTree)>, key: Seq<char>, i: int)
    requires
        0 <= i <= fields.len(),
        forall|j: int| 0 <= j < i ==> (#[trigger] fields[j]).0 != key,
        i < fields.len() ==> fields[i].0 == key,
    ensures
        field(fields, key) == (if i < fields.len() {
            Some(fields[i].1)
        } else {
            None
        }),
    decreases i,
{
    if i > 0 {
        let rest = fields.drop_first();
        assert(fields[0].0 != key);
        assert forall|j: int| 0 <= j < i - 1 implies (#[trigger] rest[j]).0 != key by {
            assert(rest[j] == fields[j + 1]);
        }
        law_field_is_the_first(rest, key, i - 1);
    }
}

/// What a field holds counts by what it is: a text as it is or trimmed, where anything is left of
/// it, a truth value, a record.
pub proof fn law_fields_by_kind(
    fields: Seq<(Seq<char>, JsonTree)>,
    key: Seq<char>,
    content: Seq<char>,
    flag: bool,
    inner: Seq<(Seq<char>, JsonTree)>,
)
    ensures
        field(fields, key) == Some(JsonTree::Text(content)) ==> text_field(fields, key) == Some(
            content,
        ) && content_field(fields, key) == (if text::is_blank(content) {
            None
        } else {
            Some(text::trim(content))
        }) && record_field(fields, key) is None && bool_field(fields, key) is None,
        field(fields, key) == Some(JsonTree::Bool(flag)) ==> bool_field(fields, key) == Some(flag)
            && text_field(fields, key) is None && record_field(fields, key) is None,
        field(fields, key) == Some(JsonTree::Record(inner)) ==> record_field(fields, key) == Some(
            inner,
        ) && text_field(fields, key) is None && bool_field(fields, key) is None,
        field(fields, key) is None ==> text_field(fields, key) is None && content_field(
            fields,
            key,
        ) is None && bool_field(fields, key) is None && record_field(fields, key) is None,
{
}

/// The text of a value: a text as it is, a truth value by its name, nothing for null.
pub proof fn law_plain_texts(content: Seq<char>)
    ensures
        plain_text(JsonTree::Text(content)) == content,
        plain_text(JsonTree::Bool(true)) == "true"@,
        plain_text(JsonTree::Bool(false)) == "false"@,
        plain_text(JsonTree::Null) == Seq::<char>::empty(),
{
}

} // verus!
