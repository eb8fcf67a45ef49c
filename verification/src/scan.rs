//! Scanning the files that Postman keeps.
use crate::bytes;
use crate::bytes::{
    decode_first_gzip_payload, find_balanced_braces_end_ignoring_strings, find_balanced_json_end,
    lossy_text, may_hold_gzip, payload_looks_like_postman_model,
};
use crate::folders;
use crate::folders::stripped;
use crate::json;
use crate::json::{parse_json, Json, JsonTree};
use crate::postman_cache;
use crate::postman_cache::{
    extract_import_entities_from_cache_json, ContextView, Found, ImportScanResult, ScanView,
    WorkspaceImportContext,
};
use crate::postman_export;
use crate::postman_export::{
    parse_postman_collection, parse_postman_environment, PostmanCollectionExport,
    PostmanEnvironmentExport,
};
use crate::text;
use crate::text::{concat3, contains_part, ends_with, starts_with, trimmed};
use vstd::prelude::*;
use vstd::slice::slice_subrange;
use vstd::string::*;
use vstd::utf8::*;

verus! {

// ---------------------------------------------------------------------------
// Payloads
// ---------------------------------------------------------------------------

/// The text of a JSON string with that inside.
pub open spec fn unescaped(encoded: Seq<char>) -> Option<Seq<char>> {
    match json::parsed_json("\""@ + encoded + "\""@) {
        Some(JsonTree::Text(content)) => Some(content),
        _ => None,
    }
}

pub fn decode_escaped_json_string(encoded: &str) -> (r: Option<String>)
    ensures
        text::opt(r) == unescaped(encoded@),
{
    match parse_json(concat3("\"", encoded, "\"").as_str()) {
        Some(Json::Text(content)) => Some(content),
        _ => None,
    }
}

/// The value in the text that a JSON string holds.
pub open spec fn value_in_string(content: Seq<char>) -> Option<JsonTree> {
    match json::parsed_json(content) {
        Some(JsonTree::Text(inner)) => json::parsed_json(inner),
        _ => None,
    }
}

fn parse_value_in_string(content: &str) -> (r: Option<Json>)
    ensures
        postman_export::view_of(r) == value_in_string(content@),
{
    match parse_json(content) {
        Some(Json::Text(inner)) => parse_json(inner.as_str()),
        _ => None,
    }
}

/// The value that a payload holds: as it stands, as a string that holds it, or escaped.
pub open spec fn payload_value(payload: Seq<u8>) -> Option<JsonTree> {
    let content = bytes::lossy(payload);
    let inner = text::trim(folders::strip(content, '\0'));
    let quoted = if text::begins_with(inner, "\""@) && text::finishes_with(inner, "\""@) {
        value_in_string(inner)
    } else {
        None
    };
    if json::parsed_json(content) is Some {
        json::parsed_json(content)
    } else if inner.len() == 0 {
        None
    } else if quoted is Some {
        quoted
    } else if text::has_part(inner, "\\\""@) {
        match unescaped(inner) {
            Some(plain) => json::parsed_json(plain),
            None => None,
        }
    } else {
        None
    }
}

pub fn parse_json_like_payload(payload: &[u8]) -> (r: Option<Json>)
    ensures
        postman_export::view_of(r) == payload_value(payload@),
{
    let content = lossy_text(payload);
    if let Some(value) = parse_json(content.as_str()) {
        return Some(value);
    }
    let inner = trimmed(stripped(content.as_str(), '\0').as_str());
    if inner.as_str().is_empty() {
        return None;
    }
    if starts_with(inner.as_str(), "\"") && ends_with(inner.as_str(), "\"") {
        if let Some(value) = parse_value_in_string(inner.as_str()) {
            return Some(value);
        }
    }
    if contains_part(inner.as_str(), "\\\"") {
        if let Some(plain) = decode_escaped_json_string(inner.as_str()) {
            return parse_json(plain.as_str());
        }
    }
    None
}

/// The shortest payload that is looked into.
pub const MIN_PAYLOAD: usize = 80;

/// The longest payload that is looked for.
pub const MAX_PAYLOAD: usize = 2_097_152;

/// How many plain payloads are looked for in one piece of data.
pub const MAX_PLAIN_PAYLOADS: usize = 10_000;

/// How many payloads are looked for in one piece of data.
pub const MAX_PAYLOADS: usize = 20_000;

/// Where the JSON objects and arrays in the data stand, from `at` on, at most `budget` of them.
pub open spec fn plain_spans(data: Seq<u8>, at: int, budget: nat) -> Seq<(int, int)>
    decreases data.len() - at,
{
    if at >= data.len() || budget == 0 {
        Seq::empty()
    } else {
        match bytes::json_end(data, at, MAX_PAYLOAD as int) {
            Some(end) => {
                proof {
                    bytes::law_json_end_bounds(data, at, MAX_PAYLOAD as int);
                }
                seq![(at, end)] + plain_spans(data, end, (budget - 1) as nat)
            },
            None => plain_spans(data, at + 1, budget),
        }
    }
}

/// Whether an escaped JSON object may start at `at`.
pub open spec fn starts_escaped(data: Seq<u8>, at: int) -> bool {
    at + 3 < data.len() && data[at] == 0x7b && data[at + 1] == 0x5c && data[at + 2] == 0x22
}

/// Where the escaped JSON objects in the data stand, from `at` on, at most `budget` of them.
pub open spec fn escaped_spans(data: Seq<u8>, at: int, budget: nat) -> Seq<(int, int)>
    decreases data.len() - at,
{
    if at >= data.len() || budget == 0 {
        Seq::empty()
    } else if !starts_escaped(data, at) {
        escaped_spans(data, at + 1, budget)
    } else {
        match bytes::braces_end(data, at, MAX_PAYLOAD as int) {
            Some(end) => {
                proof {
                    bytes::law_braces_end_bounds(data, at, MAX_PAYLOAD as int);
                }
                seq![(at, end)] + escaped_spans(data, end, (budget - 1) as nat)
            },
            None => escaped_spans(data, at + 1, budget),
        }
    }
}

/// What a payload states. A plain payload counts only where it looks like a model.
pub open spec fn found_in_payload(payload: Seq<u8>, plain: bool, context: ContextView) -> Found {
    if payload.len() < MIN_PAYLOAD || plain && !bytes::looks_like_model(payload) {
        postman_cache::nothing_found()
    } else {
        match payload_value(payload) {
            Some(value) => postman_cache::found_in(value, context),
            None => postman_cache::nothing_found(),
        }
    }
}

/// What the payloads in the spans state.
pub open spec fn found_in_spans(
    data: Seq<u8>,
    spans: Seq<(int, int)>,
    plain: bool,
    context: ContextView,
) -> Found
    decreases spans.len(),
{
    if spans.len() == 0 {
        postman_cache::nothing_found()
    } else {
        postman_cache::both(
            found_in_payload(data.subrange(spans[0].0, spans[0].1), plain, context),
            found_in_spans(data, spans.drop_first(), plain, context),
        )
    }
}

/// What the plain and the escaped payloads in the data state.
pub open spec fn found_in_plain_data(data: Seq<u8>, context: ContextView) -> Found {
    let plain = plain_spans(data, 0, MAX_PLAIN_PAYLOADS as nat);
    let escaped = escaped_spans(data, 0, (MAX_PAYLOADS - plain.len()) as nat);
    postman_cache::both(
        found_in_spans(data, plain, true, context),
        found_in_spans(data, escaped, false, context),
    )
}

/// How many layers of compression there can be: none in text, so at most one.
pub open spec fn compressed_layers(data: Seq<u8>) -> nat {
    if bytes::next_place(data, bytes::gzip_magic(), 0) is Some {
        1
    } else {
        0
    }
}

/// What data of a store state: first what is in the first compressed part, then the payloads.
pub open spec fn found_in_binary(data: Seq<u8>, context: ContextView) -> Found
    decreases compressed_layers(data),
{
    let compressed = if bytes::next_place(data, bytes::gzip_magic(), 0) is Some {
        match bytes::gzip_text(data) {
            Some(content) => {
                proof {
                    bytes::law_text_holds_no_gzip(content);
                }
                found_in_binary(encode_utf8(content), context)
            },
            None => postman_cache::nothing_found(),
        }
    } else {
        postman_cache::nothing_found()
    };
    postman_cache::both(compressed, found_in_plain_data(data, context))
}

proof fn lemma_plain_spans_count(data: Seq<u8>, at: int, budget: nat)
    ensures
        plain_spans(data, at, budget).len() <= budget,
    decreases data.len() - at,
{
    if at < data.len() && budget > 0 {
        match bytes::json_end(data, at, MAX_PAYLOAD as int) {
            Some(end) => {
                bytes::law_json_end_bounds(data, at, MAX_PAYLOAD as int);
                lemma_plain_spans_count(data, end, (budget - 1) as nat);
            },
            None => {
                lemma_plain_spans_count(data, at + 1, budget);
            },
        }
    }
}

fn extract_payload(
    payload: &[u8],
    plain: bool,
    import_context: &WorkspaceImportContext,
    result: &mut ImportScanResult,
)
    ensures
        postman_cache::extended(
            old(result)@,
            final(result)@,
            found_in_payload(payload@, plain, import_context@),
        ),
{
    proof {
        postman_cache::lemma_extended_by_nothing(result@);
    }
    if payload.len() < MIN_PAYLOAD {
        return;
    }
    if plain && !payload_looks_like_postman_model(payload) {
        return;
    }
    if let Some(value) = parse_json_like_payload(payload) {
        extract_import_entities_from_cache_json(&value, import_context, result);
    }
}

/// Takes over the plain payloads; the number of payloads that were found.
fn extract_plain(
    raw: &[u8],
    import_context: &WorkspaceImportContext,
    result: &mut ImportScanResult,
) -> (count: usize)
    ensures
        postman_cache::extended(
            old(result)@,
            final(result)@,
            found_in_spans(
                raw@,
                plain_spans(raw@, 0, MAX_PLAIN_PAYLOADS as nat),
                true,
                import_context@,
            ),
        ),
        count == plain_spans(raw@, 0, MAX_PLAIN_PAYLOADS as nat).len(),
        count <= MAX_PLAIN_PAYLOADS,
{
    let ghost start = result@;
    let ghost context = import_context@;
    let ghost spans = plain_spans(raw@, 0, MAX_PLAIN_PAYLOADS as nat);
    let ghost mut done = postman_cache::nothing_found();
    let mut at: usize = 0;
    let mut count: usize = 0;
    proof {
        postman_cache::lemma_extended_by_nothing(start);
        assert(spans.skip(0) =~= spans);
        assert(postman_cache::both(done, found_in_spans(raw@, spans, true, context))
            =~= found_in_spans(raw@, spans, true, context));
        lemma_plain_spans_count(raw@, 0, MAX_PLAIN_PAYLOADS as nat);
    }
    while at < raw.len() && count < MAX_PLAIN_PAYLOADS
        invariant
            context == import_context@,
            spans == plain_spans(raw@, 0, MAX_PLAIN_PAYLOADS as nat),
            at <= raw@.len(),
            count <= MAX_PLAIN_PAYLOADS,
            count <= spans.len(),
            spans.skip(count as int) == plain_spans(
                raw@,
                at as int,
                (MAX_PLAIN_PAYLOADS - count) as nat,
            ),
            postman_cache::extended(start, result@, done),
            postman_cache::both(
                done,
                found_in_spans(raw@, spans.skip(count as int), true, context),
            ) == found_in_spans(raw@, spans, true, context),
        decreases raw@.len() - at,
    {
        match find_balanced_json_end(raw, at, MAX_PAYLOAD) {
            None => {
                at += 1;
            },
            Some(end) => {
                let payload = slice_subrange(raw, at, end);
                let ghost middle = result@;
                let ghost here = found_in_payload(payload@, true, context);
                let ghost rest = spans.skip(count as int);
                extract_payload(payload, true, import_context, result);
                proof {
                    assert(rest[0] == (at as int, end as int));
                    assert(rest.drop_first() =~= spans.skip(count + 1));
                    assert(rest.drop_first() =~= plain_spans(
                        raw@,
                        end as int,
                        (MAX_PLAIN_PAYLOADS - count - 1) as nat,
                    ));
                    let tail = found_in_spans(raw@, rest.drop_first(), true, context);
                    postman_cache::lemma_extended_twice(start, middle, result@, done, here);
                    postman_cache::lemma_both_associative(done, here, tail);
                    done = postman_cache::both(done, here);
                }
                at = end;
                count += 1;
            },
        }
    }
    proof {
        let rest = spans.skip(count as int);
        assert(rest.len() == 0);
        assert(postman_cache::both(done, postman_cache::nothing_found()) =~= done);
    }
    count
}

/// Takes over the escaped payloads, at most `budget` of them.
fn extract_escaped(
    raw: &[u8],
    budget: usize,
    import_context: &WorkspaceImportContext,
    result: &mut ImportScanResult,
)
    ensures
        postman_cache::extended(
            old(result)@,
            final(result)@,
            found_in_spans(
                raw@,
                escaped_spans(raw@, 0, budget as nat),
                false,
                import_context@,
            ),
        ),
{
    let ghost start = result@;
    let ghost context = import_context@;
    let ghost all = found_in_spans(raw@, escaped_spans(raw@, 0, budget as nat), false, context);
    let ghost mut done = postman_cache::nothing_found();
    let length: usize = raw.len();
    let mut at: usize = 0;
    let mut left: usize = budget;
    proof {
        postman_cache::lemma_extended_by_nothing(start);
        assert(postman_cache::both(done, all) =~= all);
    }
    while at < length && left > 0
        invariant
            length == raw@.len(),
            context == import_context@,
            at <= length,
            postman_cache::extended(start, result@, done),
            postman_cache::both(
                done,
                found_in_spans(
                    raw@,
                    escaped_spans(raw@, at as int, left as nat),
                    false,
                    context,
                ),
            ) == all,
        decreases length - at,
    {
        let ghost rest = escaped_spans(raw@, at as int, left as nat);
        if length - at <= 3 || raw[at] != 0x7b || raw[at + 1] != 0x5c || raw[at + 2] != 0x22 {
            at += 1;
        } else {
            match find_balanced_braces_end_ignoring_strings(raw, at, MAX_PAYLOAD) {
                None => {
                    at += 1;
                },
                Some(end) => {
                    let payload = slice_subrange(raw, at, end);
                    let ghost middle = result@;
                    let ghost here = found_in_payload(payload@, false, context);
                    extract_payload(payload, false, import_context, result);
                    proof {
                        assert(rest[0] == (at as int, end as int));
                        assert(rest.drop_first() =~= escaped_spans(
                            raw@,
                            end as int,
                            (left - 1) as nat,
                        ));
                        let tail = found_in_spans(raw@, rest.drop_first(), false, context);
                        postman_cache::lemma_extended_twice(start, middle, result@, done, here);
                        postman_cache::lemma_both_associative(done, here, tail);
                        done = postman_cache::both(done, here);
                    }
                    at = end;
                    left -= 1;
                },
            }
        }
    }
    proof {
        assert(escaped_spans(raw@, at as int, left as nat).len() == 0);
        assert(postman_cache::both(done, postman_cache::nothing_found()) =~= done);
    }
}

/// Takes over whatever the data of a store state.
pub fn extract_import_entities_from_leveldb_binary(
    raw: &[u8],
    import_context: &WorkspaceImportContext,
    result: &mut ImportScanResult,
)
    ensures
        postman_cache::extended(
            old(result)@,
            final(result)@,
            found_in_binary(raw@, import_context@),
        ),
    decreases compressed_layers(raw@),
{
    let ghost start = result@;
    let ghost context = import_context@;
    let ghost mut compressed = postman_cache::nothing_found();
    proof {
        postman_cache::lemma_extended_by_nothing(start);
    }
    if may_hold_gzip(raw) {
        if let Some(content) = decode_first_gzip_payload(raw) {
            proof {
                bytes::law_text_holds_no_gzip(content@);
                compressed = found_in_binary(encode_utf8(content@), context);
            }
            extract_import_entities_from_leveldb_binary(
                content.as_str().as_bytes(),
                import_context,
                result,
            );
        }
    }
    let ghost first = result@;
    let count = extract_plain(raw, import_context, result);
    let ghost second = result@;
    extract_escaped(raw, MAX_PAYLOADS - count, import_context, result);
    proof {
        let plain = plain_spans(raw@, 0, MAX_PLAIN_PAYLOADS as nat);
        let escaped = escaped_spans(raw@, 0, (MAX_PAYLOADS - plain.len()) as nat);
        let a = found_in_spans(raw@, plain, true, context);
        let b = found_in_spans(raw@, escaped, false, context);
        postman_cache::lemma_extended_twice(first, second, result@, a, b);
        postman_cache::lemma_extended_twice(
            start,
            first,
            result@,
            compressed,
            postman_cache::both(a, b),
        );
    }
}

// ---------------------------------------------------------------------------
// Files
// ---------------------------------------------------------------------------

/// A scan of one more file.
pub open spec fn one_more_file(scan: ScanView) -> ScanView {
    ScanView { files_scanned: (scan.files_scanned + 1) as usize, ..scan }
}

/// Counts a file.
pub fn count_file(result: &mut ImportScanResult)
    requires
        old(result).files_scanned < usize::MAX,
    ensures
        final(result)@ == one_more_file(old(result)@),
{
    result.files_scanned += 1;
}

/// Whether a text may hold cached models or requests.
pub open spec fn looks_like_cache(content: Seq<char>) -> bool {
    &&& text::begins_with(content, "{"@) || text::begins_with(content, "["@)
    &&& {
        ||| text::has_part(content, "\"model\""@)
        ||| text::has_part(content, "\"entities\""@)
        ||| text::has_part(content, "\"model_id\""@)
        ||| text::has_part(content, "\"url\""@) && (text::has_part(content, "\"method\""@)
            || text::has_part(content, "\"request\""@))
    }
}

fn may_be_cache(content: &str) -> (r: bool)
    ensures
        r == looks_like_cache(content@),
{
    (starts_with(content, "{") || starts_with(content, "[")) && (contains_part(
        content,
        "\"model\"",
    ) || contains_part(content, "\"entities\"") || contains_part(content, "\"model_id\"") || (
    contains_part(content, "\"url\"") && (contains_part(content, "\"method\"") || contains_part(
        content,
        "\"request\"",
    ))))
}

/// What a cache file states.
pub open spec fn found_in_cache_file(data: Seq<u8>, context: ContextView) -> Found {
    match bytes::gzip_text(data) {
        Some(content) => if encode_utf8(content).len() < MIN_PAYLOAD || !looks_like_cache(
            content,
        ) {
            postman_cache::nothing_found()
        } else {
            match json::parsed_json(content) {
                Some(value) => postman_cache::found_in(value, context),
                None => postman_cache::nothing_found(),
            }
        },
        None => postman_cache::nothing_found(),
    }
}

/// Counts a cache file and takes over what it states.
pub fn scan_postman_cached_payload(
    raw: &[u8],
    import_context: &WorkspaceImportContext,
    result: &mut ImportScanResult,
)
    requires
        old(result).files_scanned < usize::MAX,
    ensures
        postman_cache::extended(
            one_more_file(old(result)@),
            final(result)@,
            found_in_cache_file(raw@, import_context@),
        ),
{
    count_file(result);
    proof {
        postman_cache::lemma_extended_by_nothing(result@);
    }
    if let Some(content) = decode_first_gzip_payload(raw) {
        if content.as_str().as_bytes().len() < MIN_PAYLOAD || !may_be_cache(content.as_str()) {
            return;
        }
        if let Some(value) = parse_json(content.as_str()) {
            extract_import_entities_from_cache_json(&value, import_context, result);
        }
    }
}

/// The longest value of a store entry that is looked into.
pub const MAX_ENTRY_VALUE: usize = 4_194_304;

/// The longest key of a store entry that is looked into.
pub const MAX_ENTRY_KEY: usize = 524_288;

/// What a part of a store entry states.
pub open spec fn found_in_entry_part(part: Seq<u8>, limit: int, context: ContextView) -> Found {
    if 0 < part.len() <= limit {
        found_in_binary(part, context)
    } else {
        postman_cache::nothing_found()
    }
}

/// Takes over what an entry of a store states: its value, then its key.
pub fn scan_postman_leveldb_entry(
    key: &[u8],
    value: &[u8],
    import_context: &WorkspaceImportContext,
    result: &mut ImportScanResult,
)
    ensures
        postman_cache::extended(
            old(result)@,
            final(result)@,
            postman_cache::both(
                found_in_entry_part(value@, MAX_ENTRY_VALUE as int, import_context@),
                found_in_entry_part(key@, MAX_ENTRY_KEY as int, import_context@),
            ),
        ),
{
    let ghost start = result@;
    proof {
        postman_cache::lemma_extended_by_nothing(start);
    }
    if value.len() > 0 && value.len() <= MAX_ENTRY_VALUE {
        extract_import_entities_from_leveldb_binary(value, import_context, result);
    }
    let ghost middle = result@;
    proof {
        postman_cache::lemma_extended_by_nothing(middle);
    }
    if key.len() > 0 && key.len() <= MAX_ENTRY_KEY {
        extract_import_entities_from_leveldb_binary(key, import_context, result);
    }
    proof {
        postman_cache::lemma_extended_twice(
            start,
            middle,
            result@,
            found_in_entry_part(value@, MAX_ENTRY_VALUE as int, import_context@),
            found_in_entry_part(key@, MAX_ENTRY_KEY as int, import_context@),
        );
    }
}

/// What an exported file states, read as a collection and as an environment.
pub open spec fn found_in_export(
    collection: Option<PostmanCollectionExport>,
    environment: Option<PostmanEnvironmentExport>,
    file_stem: Option<Seq<char>>,
) -> Found {
    let variables = match environment {
        Some(environment) => postman_export::exported_environment(environment, file_stem),
        None => None,
    };
    Found {
        endpoints: match collection {
            Some(collection) => postman_export::collection_endpoints(collection),
            None => Seq::empty(),
        },
        environments: match variables {
            Some(variables) => seq![variables],
            None => Seq::empty(),
        },
        ..postman_cache::nothing_found()
    }
}

/// Takes over what an exported file states.
pub fn scan_postman_json_export(
    collection: &Option<PostmanCollectionExport>,
    environment: &Option<PostmanEnvironmentExport>,
    file_stem: Option<String>,
    result: &mut ImportScanResult,
)
    ensures
        postman_cache::extended(
            old(result)@,
            final(result)@,
            found_in_export(*collection, *environment, text::opt(file_stem)),
        ),
{
    let ghost before = result@;
    let ghost found = found_in_export(*collection, *environment, text::opt(file_stem));
    proof {
        postman_export::lemma_appended_none(before.endpoints);
    }
    if let Some(collection) = collection {
        match parse_postman_collection(collection) {
            Some(mut endpoints) => {
                let ghost new = text::views(endpoints@);
                let ghost old_endpoints = result.endpoints@;
                let ghost given = endpoints@;
                result.endpoints.append(&mut endpoints);
                proof {
                    let after = result@.endpoints;
                    assert(after =~= before.endpoints + new);
                    assert(before.endpoints =~= after.subrange(0, before.endpoints.len() as int));
                    assert(after.skip(before.endpoints.len() as int) =~= new);
                }
            },
            None => {
                assert(postman_export::collection_endpoints(*collection) =~= Seq::empty());
            },
        }
    }
    if let Some(environment) = environment {
        if let Some(variables) = parse_postman_environment(environment, file_stem) {
            proof {
                text::lemma_views_push(result.environments@, variables);
            }
            result.environments.push(variables);
        }
    }
    assert(result@.environments =~= before.environments + found.environments);
    assert(result@.collection_names_by_id =~= before.collection_names_by_id.union_prefer_right(
        found.collections,
    ));
    assert(result@.folders_by_id =~= before.folders_by_id.union_prefer_right(found.folders));
}

/// The two scans as one, the incoming one coming second.
pub open spec fn merged_scans(target: ScanView, incoming: ScanView) -> ScanView {
    ScanView {
        files_scanned: (target.files_scanned + incoming.files_scanned) as usize,
        endpoints: target.endpoints + incoming.endpoints,
        environments: target.environments + incoming.environments,
        collection_names_by_id: target.collection_names_by_id.union_prefer_right(
            incoming.collection_names_by_id,
        ),
        folders_by_id: target.folders_by_id.union_prefer_right(incoming.folders_by_id),
    }
}

pub fn merge_import_scan_result(target: &mut ImportScanResult, incoming: ImportScanResult)
    requires
        old(target).files_scanned + incoming.files_scanned <= usize::MAX,
    ensures
        final(target)@ == merged_scans(old(target)@, incoming@),
{
    let ghost before = target@;
    let ghost theirs = incoming@;
    target.files_scanned += incoming.files_scanned;
    let mut endpoints = incoming.endpoints;
    let mut environments = incoming.environments;
    target.endpoints.append(&mut endpoints);
    target.environments.append(&mut environments);
    target.collection_names_by_id.extend(incoming.collection_names_by_id);
    target.folders_by_id.extend(incoming.folders_by_id);
    assert(target@.endpoints =~= before.endpoints + theirs.endpoints);
    assert(target@.environments =~= before.environments + theirs.environments);
}

// ---------------------------------------------------------------------------
// Laws
// ---------------------------------------------------------------------------

/// A payload is read as the JSON that it holds.
pub proof fn law_json_payload_is_read(payload: Seq<u8>, value: JsonTree)
    requires
        json::json_reading(bytes::lossy(payload)) == Ok::<JsonTree, Seq<char>>(value),
    ensures
        payload_value(payload) == Some(value),
{
}

/// What a model in the data of a store states is found, wherever it stands and whatever stands
/// around it, as long as no bracket opens before it.
pub proof fn law_model_in_a_store_is_found(
    before: Seq<u8>,
    payload: Seq<u8>,
    after: Seq<u8>,
    value: JsonTree,
    context: ContextView,
)
    requires
        forall|i: int|
            0 <= i < before.len() ==> #[trigger] before[i] != 0x7b && before[i] != 0x5b,
        bytes::is_closed(payload),
        MIN_PAYLOAD <= payload.len() <= MAX_PAYLOAD,
        bytes::looks_like_model(payload),
        json::json_reading(bytes::lossy(payload)) == Ok::<JsonTree, Seq<char>>(value),
    ensures
        postman_cache::is_part_of(
            postman_cache::found_in(value, context),
            found_in_binary(before + payload + after, context),
        ),
{
    let data = before + payload + after;
    let at = before.len() as int;
    let budget = MAX_PLAIN_PAYLOADS as nat;
    lemma_spans_begin_behind(data, 0, at, budget);
    bytes::lemma_closed_value_is_found(data, payload, at, MAX_PAYLOAD as int);
    let spans = plain_spans(data, 0, budget);
    let end = at + payload.len();
    assert(spans[0] == (at, end));
    assert(data.subrange(at, end) =~= payload);
    let found = postman_cache::found_in(value, context);
    assert(found_in_payload(payload, true, context) == found);
    let rest = found_in_spans(data, spans.drop_first(), true, context);
    let plain = found_in_spans(data, spans, true, context);
    let escaped = found_in_spans(
        data,
        escaped_spans(data, 0, (MAX_PAYLOADS - spans.len()) as nat),
        false,
        context,
    );
    postman_cache::lemma_part_of_both(found, rest);
    postman_cache::lemma_part_of_both(plain, escaped);
    postman_cache::lemma_part_of_part(found, plain, found_in_plain_data(data, context));
    let compressed = if bytes::next_place(data, bytes::gzip_magic(), 0) is Some {
        match bytes::gzip_text(data) {
            Some(content) => found_in_binary(encode_utf8(content), context),
            None => postman_cache::nothing_found(),
        }
    } else {
        postman_cache::nothing_found()
    };
    postman_cache::lemma_part_of_both(compressed, found_in_plain_data(data, context));
    assert(found_in_binary(data, context) == postman_cache::both(
        compressed,
        found_in_plain_data(data, context),
    ));
    postman_cache::lemma_part_of_part(
        found,
        found_in_plain_data(data, context),
        found_in_binary(data, context),
    );
}

proof fn lemma_spans_begin_behind(data: Seq<u8>, from: int, at: int, budget: nat)
    requires
        0 <= from <= at < data.len(),
        budget > 0,
        forall|i: int| from <= i < at ==> #[trigger] data[i] != 0x7b && data[i] != 0x5b,
    ensures
        plain_spans(data, from, budget) == plain_spans(data, at, budget),
    decreases at - from,
{
    if from < at {
        assert(data[from] != 0x7b && data[from] != 0x5b);
        assert(bytes::json_end(data, from, MAX_PAYLOAD as int) is None);
        lemma_spans_begin_behind(data, from + 1, at, budget);
    }
}

/// What stands in compressed data of a store is found.
pub proof fn law_compressed_data_are_looked_into(
    data: Seq<u8>,
    content: Seq<char>,
    context: ContextView,
)
    requires
        bytes::gzip_text(data) == Some(content),
    ensures
        postman_cache::is_part_of(
            found_in_binary(encode_utf8(content), context),
            found_in_binary(data, context),
        ),
{
    let inner = found_in_binary(encode_utf8(content), context);
    let plain = found_in_plain_data(data, context);
    assert(bytes::next_place(data, bytes::gzip_magic(), 0) is Some);
    postman_cache::lemma_part_of_both(inner, plain);
    bytes::law_text_holds_no_gzip(content);
    assert(found_in_binary(data, context) == postman_cache::both(inner, plain));
}

/// A compressed cache file states what its JSON states.
pub proof fn law_cache_file_is_read(
    data: Seq<u8>,
    content: Seq<char>,
    value: JsonTree,
    context: ContextView,
)
    requires
        bytes::gzip_text(data) == Some(content),
        encode_utf8(content).len() >= 80,
        text::begins_with(content, "{"@),
        text::has_part(content, "\"model\""@),
        json::json_reading(content) == Ok::<JsonTree, Seq<char>>(value),
    ensures
        found_in_cache_file(data, context) == postman_cache::found_in(value, context),
{
}

/// Of an entry of a store both parts are looked into, unless they are too long.
pub proof fn law_entry_parts_are_looked_into(part: Seq<u8>, limit: int, context: ContextView)
    ensures
        0 < part.len() <= limit ==> found_in_entry_part(part, limit, context) == found_in_binary(
            part,
            context,
        ),
        part.len() > limit ==> found_in_entry_part(part, limit, context)
            == postman_cache::nothing_found(),
{
}

/// An exported file states the requests of its collection and its environment.
pub proof fn law_export_is_read(
    collection: PostmanCollectionExport,
    environment: PostmanEnvironmentExport,
    file_stem: Option<Seq<char>>,
)
    ensures
        found_in_export(Some(collection), None, file_stem).endpoints
            == postman_export::collection_endpoints(collection),
        found_in_export(None, Some(environment), file_stem).environments == (
        match postman_export::exported_environment(environment, file_stem) {
            Some(found) => seq![found],
            None => Seq::empty(),
        }),
        found_in_export(Some(collection), None, file_stem).environments.len() == 0,
        found_in_export(None, Some(environment), file_stem).endpoints.len() == 0,
{
}

/// Two scans together hold what either held, and count the files of both.
pub proof fn law_scans_are_put_together(target: ScanView, incoming: ScanView, id: Seq<char>)
    requires
        target.files_scanned + incoming.files_scanned <= usize::MAX,
    ensures
        ({
            let after = merged_scans(target, incoming);
            &&& after.files_scanned == target.files_scanned + incoming.files_scanned
            &&& after.endpoints == target.endpoints + incoming.endpoints
            &&& after.environments == target.environments + incoming.environments
            &&& incoming.folders_by_id.dom().contains(id) ==> after.folders_by_id[id]
                == incoming.folders_by_id[id]
            &&& !incoming.folders_by_id.dom().contains(id)
                && target.folders_by_id.dom().contains(id) ==> after.folders_by_id[id]
                == target.folders_by_id[id]
            &&& incoming.collection_names_by_id.dom().contains(id)
                ==> after.collection_names_by_id[id] == incoming.collection_names_by_id[id]
            &&& !incoming.collection_names_by_id.dom().contains(id)
                && target.collection_names_by_id.dom().contains(id)
                ==> after.collection_names_by_id[id] == target.collection_names_by_id[id]
        }),
{
}

/// A record or a list looks like cached data where it names models or entities, or the URL of a
/// request beside its method; what is neither does not.
pub proof fn law_cached_data_are_known_by_their_names(content: Seq<char>)
    ensures
        !text::begins_with(content, "{"@) && !text::begins_with(content, "["@)
            ==> !looks_like_cache(content),
        ({
            let is_json = text::begins_with(content, "{"@) || text::begins_with(content, "["@);
            &&& is_json && text::has_part(content, "\"model\""@) ==> looks_like_cache(content)
            &&& is_json && text::has_part(content, "\"entities\""@) ==> looks_like_cache(content)
            &&& is_json && text::has_part(content, "\"model_id\""@) ==> looks_like_cache(content)
            &&& is_json && text::has_part(content, "\"url\""@) && text::has_part(
                content,
                "\"method\""@,
            ) ==> looks_like_cache(content)
            &&& is_json && text::has_part(content, "\"url\""@) && text::has_part(
                content,
                "\"request\""@,
            ) ==> looks_like_cache(content)
            &&& !text::has_part(content, "\"model\""@) && !text::has_part(
                content,
                "\"entities\""@,
            ) && !text::has_part(content, "\"model_id\""@) && !text::has_part(
                content,
                "\"url\""@,
            ) ==> !looks_like_cache(content)
        }),
{
}

} // verus!
