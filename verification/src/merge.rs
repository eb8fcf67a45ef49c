//! When two requests are the same, and what one takes over from the other.
use crate::models::{Endpoint, EndpointView, KeyValue};
use crate::request_body;
use crate::request_body::normalize_body_mode;
use crate::text;
use crate::text::{
    blank, concat3, contains_char, non_empty_trimmed, same_text, to_ascii_lower, to_lower, to_upper,
    trimmed,
};
use vstd::prelude::*;
use vstd::string::*;
use vstd::utf8::*;

verus! {

// ---------------------------------------------------------------------------
// Identity
// ---------------------------------------------------------------------------

/// How a query parameter counts in the identity of a request.
pub open spec fn param_signature(param: (Seq<char>, Seq<char>)) -> Option<Seq<char>> {
    if text::is_blank(param.0) {
        None
    } else {
        Some(
            text::ascii_lower(text::trim(param.0)) + "="@ + text::ascii_lower(text::trim(param.1)),
        )
    }
}

pub open spec fn query_signature(params: Seq<(Seq<char>, Seq<char>)>) -> Seq<char> {
    text::join(
        params.filter_map(|param: (Seq<char>, Seq<char>)| param_signature(param)),
        "&"@,
    )
}

/// What identifies a request: the id of its source where it has one, else method, URL,
/// collection, folder, name and query.
pub open spec fn dedup_key(endpoint: EndpointView) -> Seq<char> {
    match text::trimmed_content(endpoint.source_request_id) {
        Some(id) => "source-id|"@ + text::ascii_lower(id),
        None => text::unicode_upper(text::trim(endpoint.method)) + "|"@ + text::unicode_lower(
            text::trim(endpoint.url),
        ) + "|"@ + text::unicode_lower(text::trim(endpoint.collection)) + "|"@
            + text::unicode_lower(text::trim(endpoint.folder_path)) + "|"@ + text::unicode_lower(
            text::trim(endpoint.name),
        ) + "|"@ + query_signature(endpoint.query_params),
    }
}

fn query_signature_text(params: &Vec<KeyValue>) -> (r: String)
    ensures
        r@ == query_signature(text::views(params@)),
{
    let mut parts: Vec<String> = Vec::new();
    let ghost all = text::views(params@);
    let ghost f = |param: (Seq<char>, Seq<char>)| param_signature(param);
    let mut i: usize = 0;
    assert(text::views(parts@) =~= all.take(0).filter_map(f));
    while i < params.len()
        invariant
            i <= params@.len(),
            all == text::views(params@),
            f == (|param: (Seq<char>, Seq<char>)| param_signature(param)),
            text::views(parts@) == all.take(i as int).filter_map(f),
        decreases params@.len() - i,
    {
        proof {
            all.lemma_filter_map_take_succ(f, i as int);
        }
        let key = trimmed(params[i].key.as_str());
        if !key.as_str().is_empty() {
            let value = trimmed(params[i].value.as_str());
            let part = concat3(
                to_ascii_lower(key.as_str()).as_str(),
                "=",
                to_ascii_lower(value.as_str()).as_str(),
            );
            proof {
                text::lemma_views_push(parts@, part);
            }
            parts.push(part);
        }
        i += 1;
    }
    assert(all.take(all.len() as int) =~= all);
    text::joined(&parts, "&")
}

/// The request with the parts that identify it trimmed and their ASCII letters in lower case.
pub open spec fn plain_identity(endpoint: EndpointView) -> EndpointView {
    EndpointView {
        method: text::ascii_lower(text::trim(endpoint.method)),
        url: text::ascii_lower(text::trim(endpoint.url)),
        collection: text::ascii_lower(text::trim(endpoint.collection)),
        folder_path: text::ascii_lower(text::trim(endpoint.folder_path)),
        name: text::ascii_lower(text::trim(endpoint.name)),
        ..endpoint
    }
}

/// Whether the text is the key of the request. It is also that of its plain identity, and
/// begins with `source-id|` if and only if the request has a source.
pub open spec fn is_key_of(key: Seq<char>, endpoint: EndpointView) -> bool {
    &&& key == dedup_key(endpoint)
    &&& key == dedup_key(plain_identity(endpoint))
    &&& text::begins_with(key, "source-id|"@) == !text::is_blank(endpoint.source_request_id)
}

pub fn endpoint_dedup_key(endpoint: &Endpoint) -> (r: String)
    ensures
        r@ == dedup_key(endpoint@),
        is_key_of(r@, endpoint@),
{
    if let Some(source_id) = non_empty_trimmed(endpoint.source_request_id.as_str()) {
        let key = text::concat2("source-id|", to_ascii_lower(source_id.as_str()).as_str());
        assert(key@.subrange(0, "source-id|"@.len() as int) =~= "source-id|"@);
        return key;
    }
    proof {
        text::lemma_trimmed_in_lower_case(endpoint@.method);
        text::lemma_trimmed_in_lower_case(endpoint@.url);
        text::lemma_trimmed_in_lower_case(endpoint@.collection);
        text::lemma_trimmed_in_lower_case(endpoint@.folder_path);
        text::lemma_trimmed_in_lower_case(endpoint@.name);
    }
    let mut key = to_upper(trimmed(endpoint.method.as_str()).as_str());
    let ghost method = key@;
    key.append("|");
    key.append(to_lower(trimmed(endpoint.url.as_str()).as_str()).as_str());
    key.append("|");
    key.append(to_lower(trimmed(endpoint.collection.as_str()).as_str()).as_str());
    key.append("|");
    key.append(to_lower(trimmed(endpoint.folder_path.as_str()).as_str()).as_str());
    key.append("|");
    key.append(to_lower(trimmed(endpoint.name.as_str()).as_str()).as_str());
    key.append("|");
    key.append(query_signature_text(&endpoint.query_params).as_str());
    proof {
        reveal_strlit("|");
        reveal_strlit("source-id|");
        assert(key@[0] == (method + "|"@)[0]);
        assert(key@[0] != "source-id|"@[0]);
    }
    key
}

/// Requests with the same source id are the same, whatever else they say; case and surrounding
/// white space of the id do not count.
pub proof fn law_same_source_same_request(a: EndpointView, b: EndpointView)
    requires
        !text::is_blank(a.source_request_id),
        !text::is_blank(b.source_request_id),
        text::same_ignoring_case(
            text::trim(a.source_request_id),
            text::trim(b.source_request_id),
        ),
    ensures
        dedup_key(a) == dedup_key(b),
{
}

/// The keys of two requests differ where exactly one of them has a source.
pub proof fn law_source_tells_requests_apart(
    a: EndpointView,
    b: EndpointView,
    key_a: Seq<char>,
    key_b: Seq<char>,
)
    requires
        is_key_of(key_a, a),
        is_key_of(key_b, b),
        text::is_blank(a.source_request_id) != text::is_blank(b.source_request_id),
    ensures
        key_a != key_b,
{
}

/// Whether method, URL, collection, folder and name of two requests are the same up to the case
/// of ASCII letters and surrounding white space, and so are their query parameters.
pub open spec fn same_plainly(a: EndpointView, b: EndpointView) -> bool {
    &&& text::same_ignoring_case(text::trim(a.method), text::trim(b.method))
    &&& text::same_ignoring_case(text::trim(a.url), text::trim(b.url))
    &&& text::same_ignoring_case(text::trim(a.collection), text::trim(b.collection))
    &&& text::same_ignoring_case(text::trim(a.folder_path), text::trim(b.folder_path))
    &&& text::same_ignoring_case(text::trim(a.name), text::trim(b.name))
    &&& query_signature(a.query_params) == query_signature(b.query_params)
}

/// Without a source, the case of ASCII letters and surrounding white space do not count, nor
/// does anything else that a request says beside its method, URL, collection, folder, name and
/// query.
pub proof fn law_case_does_not_tell_requests_apart(
    a: EndpointView,
    b: EndpointView,
    key_a: Seq<char>,
    key_b: Seq<char>,
)
    requires
        is_key_of(key_a, a),
        is_key_of(key_b, b),
        text::is_blank(a.source_request_id),
        text::is_blank(b.source_request_id),
        same_plainly(a, b),
    ensures
        key_a == key_b,
{
}

/// Whether what identifies two requests is the same, part by part.
pub open spec fn same_identity(a: EndpointView, b: EndpointView) -> bool {
    match (
        text::trimmed_content(a.source_request_id),
        text::trimmed_content(b.source_request_id),
    ) {
        (Some(mine), Some(theirs)) => text::ascii_lower(mine) == text::ascii_lower(theirs),
        (None, None) => {
            &&& text::unicode_upper(text::trim(a.method)) == text::unicode_upper(
                text::trim(b.method),
            )
            &&& text::unicode_lower(text::trim(a.url)) == text::unicode_lower(text::trim(b.url))
            &&& text::unicode_lower(text::trim(a.collection)) == text::unicode_lower(
                text::trim(b.collection),
            )
            &&& text::unicode_lower(text::trim(a.folder_path)) == text::unicode_lower(
                text::trim(b.folder_path),
            )
            &&& text::unicode_lower(text::trim(a.name)) == text::unicode_lower(text::trim(b.name))
            &&& query_signature(a.query_params) == query_signature(b.query_params)
        },
        _ => false,
    }
}

// ---------------------------------------------------------------------------
// Headers
// ---------------------------------------------------------------------------

/// The name under which a header is known.
pub open spec fn header_name(header: (Seq<char>, Seq<char>)) -> Seq<char> {
    text::ascii_lower(text::trim(header.0))
}

/// Whether a header of that name is among the headers.
pub open spec fn has_header(headers: Seq<(Seq<char>, Seq<char>)>, name: Seq<char>) -> bool {
    exists|i: int| 0 <= i < headers.len() && header_name(#[trigger] headers[i]) == name
}

/// The headers, and after them those of the incoming ones whose name is new and not blank, the
/// first of each name.
pub open spec fn merged_headers(
    existing: Seq<(Seq<char>, Seq<char>)>,
    incoming: Seq<(Seq<char>, Seq<char>)>,
) -> Seq<(Seq<char>, Seq<char>)>
    decreases incoming.len(),
{
    if incoming.len() == 0 {
        existing
    } else {
        let rest = merged_headers(existing, incoming.drop_last());
        let header = incoming.last();
        if text::is_blank(header.0) || has_header(rest, header_name(header)) {
            rest
        } else {
            rest.push(header)
        }
    }
}

pub fn knows_header(headers: &Vec<KeyValue>, name: &str) -> (r: bool)
    ensures
        r == has_header(text::views(headers@), name@),
{
    let ghost all = text::views(headers@);
    let mut i: usize = 0;
    while i < headers.len()
        invariant
            i <= headers@.len(),
            all == text::views(headers@),
            forall|j: int| 0 <= j < i ==> header_name(#[trigger] all[j]) != name@,
        decreases headers@.len() - i,
    {
        let known = to_ascii_lower(trimmed(headers[i].key.as_str()).as_str());
        if same_text(known.as_str(), name) {
            assert(header_name(all[i as int]) == name@);
            return true;
        }
        i += 1;
    }
    false
}

pub fn merge_header_pairs(existing: &mut Vec<KeyValue>, incoming: Vec<KeyValue>)
    ensures
        text::views(final(existing)@) == merged_headers(
            text::views(old(existing)@),
            text::views(incoming@),
        ),
{
    let ghost start = text::views(existing@);
    let ghost all = text::views(incoming@);
    let mut i: usize = 0;
    while i < incoming.len()
        invariant
            i <= incoming@.len(),
            all == text::views(incoming@),
            text::views(existing@) == merged_headers(start, all.take(i as int)),
        decreases incoming@.len() - i,
    {
        proof {
            assert(all.take(i + 1).drop_last() =~= all.take(i as int));
        }
        let key = trimmed(incoming[i].key.as_str());
        if !key.as_str().is_empty() {
            let name = to_ascii_lower(key.as_str());
            if !knows_header(existing, name.as_str()) {
                let header = incoming[i].clone();
                proof {
                    text::lemma_views_push(existing@, header);
                }
                existing.push(header);
            }
        }
        i += 1;
    }
    assert(all.take(all.len() as int) =~= all);
}

proof fn lemma_merged_headers_prefix(
    existing: Seq<(Seq<char>, Seq<char>)>,
    incoming: Seq<(Seq<char>, Seq<char>)>,
)
    ensures
        existing.len() <= merged_headers(existing, incoming).len(),
        merged_headers(existing, incoming).take(existing.len() as int) == existing,
        merged_headers(existing, incoming).len() == existing.len() ==> merged_headers(
            existing,
            incoming,
        ) == existing,
    decreases incoming.len(),
{
    if incoming.len() > 0 {
        lemma_merged_headers_prefix(existing, incoming.drop_last());
        let rest = merged_headers(existing, incoming.drop_last());
        assert(rest.push(incoming.last()).take(existing.len() as int) =~= rest.take(
            existing.len() as int,
        ));
        assert(rest.take(rest.len() as int) =~= rest);
    } else {
        assert(existing.take(existing.len() as int) =~= existing);
    }
}

/// After a merge every incoming header with a name is known.
proof fn lemma_merged_headers_known(
    existing: Seq<(Seq<char>, Seq<char>)>,
    incoming: Seq<(Seq<char>, Seq<char>)>,
)
    ensures
        forall|j: int|
            0 <= j < incoming.len() && !text::is_blank((#[trigger] incoming[j]).0) ==> has_header(
                merged_headers(existing, incoming),
                header_name(incoming[j]),
            ),
    decreases incoming.len(),
{
    if incoming.len() > 0 {
        let init = incoming.drop_last();
        let rest = merged_headers(existing, init);
        let whole = merged_headers(existing, incoming);
        lemma_merged_headers_known(existing, init);
        assert forall|j: int|
            0 <= j < incoming.len() && !text::is_blank((#[trigger] incoming[j]).0) implies has_header(
            whole,
            header_name(incoming[j]),
        ) by {
            if j < init.len() {
                assert(init[j] == incoming[j]);
                let k = choose|k: int|
                    0 <= k < rest.len() && header_name(#[trigger] rest[k]) == header_name(
                        incoming[j],
                    );
                assert(whole[k] == rest[k]);
            } else if !has_header(rest, header_name(incoming[j])) {
                assert(whole[rest.len() as int] == incoming[j]);
            }
        }
    }
}

/// Known headers add nothing.
proof fn lemma_known_headers_add_nothing(
    existing: Seq<(Seq<char>, Seq<char>)>,
    incoming: Seq<(Seq<char>, Seq<char>)>,
)
    requires
        forall|j: int|
            0 <= j < incoming.len() && !text::is_blank((#[trigger] incoming[j]).0) ==> has_header(
                existing,
                header_name(incoming[j]),
            ),
    ensures
        merged_headers(existing, incoming) == existing,
    decreases incoming.len(),
{
    if incoming.len() > 0 {
        let init = incoming.drop_last();
        assert forall|j: int|
            0 <= j < init.len() && !text::is_blank((#[trigger] init[j]).0) implies has_header(
            existing,
            header_name(init[j]),
        ) by {
            assert(init[j] == incoming[j]);
        }
        lemma_known_headers_add_nothing(existing, init);
        assert(incoming.last() == incoming[incoming.len() - 1]);
    }
}

/// Merging headers keeps those that are there, in their place, and adds each incoming one at
/// most once: a second merge of the same headers adds nothing.
pub proof fn law_header_merge_is_stable(
    existing: Seq<(Seq<char>, Seq<char>)>,
    incoming: Seq<(Seq<char>, Seq<char>)>,
)
    ensures
        existing.is_prefix_of(merged_headers(existing, incoming)),
        merged_headers(merged_headers(existing, incoming), incoming) == merged_headers(
            existing,
            incoming,
        ),
{
    lemma_merged_headers_prefix(existing, incoming);
    lemma_merged_headers_known(existing, incoming);
    lemma_known_headers_add_nothing(merged_headers(existing, incoming), incoming);
}

// ---------------------------------------------------------------------------
// Details
// ---------------------------------------------------------------------------

/// `incoming` where nothing stands in `existing`.
pub open spec fn fill(existing: Seq<char>, incoming: Seq<char>) -> Seq<char> {
    if text::is_blank(existing) && !text::is_blank(incoming) {
        incoming
    } else {
        existing
    }
}

/// Whether a request with that collection belongs to none in particular.
pub open spec fn is_uncollected(collection: Seq<char>) -> bool {
    text::is_blank(collection) || text::trim(collection) == "General"@
}

/// The collection after a merge: a particular one wins over none.
pub open spec fn merged_collection(existing: Seq<char>, incoming: Seq<char>) -> Seq<char> {
    if is_uncollected(existing) && !is_uncollected(incoming) {
        incoming
    } else {
        existing
    }
}

/// The headers after a merge: all of the incoming ones where there were none.
pub open spec fn merged_header_list(
    existing: Seq<(Seq<char>, Seq<char>)>,
    incoming: Seq<(Seq<char>, Seq<char>)>,
) -> Seq<(Seq<char>, Seq<char>)> {
    if existing.len() == 0 {
        incoming
    } else {
        merged_headers(existing, incoming)
    }
}

/// The query parameters after a merge: the incoming ones where there were none.
pub open spec fn merged_params(
    existing: Seq<(Seq<char>, Seq<char>)>,
    incoming: Seq<(Seq<char>, Seq<char>)>,
) -> Seq<(Seq<char>, Seq<char>)> {
    if existing.len() == 0 {
        incoming
    } else {
        existing
    }
}

/// The body mode after a merge: a mode that says little gives way to one that says more.
pub open spec fn merged_body_mode(existing: Seq<char>, incoming: Seq<char>) -> Seq<char> {
    let mine = request_body::body_mode(existing);
    let theirs = request_body::body_mode(incoming);
    if (mine == "none"@ || mine == "raw"@) && theirs != "none"@ && theirs != mine {
        theirs
    } else {
        existing
    }
}

/// The URL after a merge: one with a query wins over one without, and the longer of two with.
pub open spec fn merged_url(existing: Seq<char>, incoming: Seq<char>) -> Seq<char> {
    if existing != incoming && incoming.contains('?') && (!existing.contains('?') || encode_utf8(
        incoming,
    ).len() > encode_utf8(existing).len()) {
        incoming
    } else {
        existing
    }
}

/// The existing request with the gaps filled from the incoming one.
pub open spec fn merged(existing: EndpointView, incoming: EndpointView) -> EndpointView {
    EndpointView {
        source_collection_id: fill(existing.source_collection_id, incoming.source_collection_id),
        source_folder_id: fill(existing.source_folder_id, incoming.source_folder_id),
        collection: merged_collection(existing.collection, incoming.collection),
        folder_path: fill(existing.folder_path, incoming.folder_path),
        headers: merged_header_list(existing.headers, incoming.headers),
        query_params: merged_params(existing.query_params, incoming.query_params),
        body: fill(existing.body, incoming.body),
        body_mode: merged_body_mode(existing.body_mode, incoming.body_mode),
        url: merged_url(existing.url, incoming.url),
        ..existing
    }
}

fn is_general(collection: &str) -> (r: bool)
    ensures
        r == is_uncollected(collection@),
{
    let name = trimmed(collection);
    name.as_str().is_empty() || same_text(name.as_str(), "General")
}

fn fill_text(existing: &mut String, incoming: String) -> (changed: bool)
    ensures
        final(existing)@ == fill(old(existing)@, incoming@),
        changed == (final(existing)@ != old(existing)@),
{
    if blank(existing.as_str()) && !blank(incoming.as_str()) {
        *existing = incoming;
        true
    } else {
        false
    }
}

fn fill_collection(existing: &mut String, incoming: String) -> (changed: bool)
    ensures
        final(existing)@ == merged_collection(old(existing)@, incoming@),
        changed == (final(existing)@ != old(existing)@),
{
    if is_general(existing.as_str()) && !is_general(incoming.as_str()) {
        *existing = incoming;
        true
    } else {
        false
    }
}

fn fill_headers(existing: &mut Vec<KeyValue>, incoming: Vec<KeyValue>) -> (changed: bool)
    ensures
        text::views(final(existing)@) == merged_header_list(
            text::views(old(existing)@),
            text::views(incoming@),
        ),
        changed == (text::views(final(existing)@) != text::views(old(existing)@)),
{
    let ghost before = text::views(existing@);
    let ghost theirs = text::views(incoming@);
    let count: usize = existing.len();
    if count == 0 {
        let changed = incoming.len() > 0;
        *existing = incoming;
        assert(!changed ==> before =~= theirs);
        changed
    } else {
        merge_header_pairs(existing, incoming);
        proof {
            lemma_merged_headers_prefix(before, theirs);
        }
        existing.len() != count
    }
}

fn fill_params(existing: &mut Vec<KeyValue>, incoming: Vec<KeyValue>) -> (changed: bool)
    ensures
        text::views(final(existing)@) == merged_params(
            text::views(old(existing)@),
            text::views(incoming@),
        ),
        changed == (text::views(final(existing)@) != text::views(old(existing)@)),
{
    let ghost before = text::views(existing@);
    let ghost theirs = text::views(incoming@);
    if existing.len() == 0 {
        let changed = incoming.len() > 0;
        *existing = incoming;
        assert(!changed ==> before =~= theirs);
        changed
    } else {
        false
    }
}

fn fill_body_mode(existing: &mut String, incoming: &str) -> (changed: bool)
    ensures
        final(existing)@ == merged_body_mode(old(existing)@, incoming@),
        changed == (final(existing)@ != old(existing)@),
{
    let theirs = normalize_body_mode(incoming);
    let mine = normalize_body_mode(existing.as_str());
    if (same_text(mine, "none") || same_text(mine, "raw")) && !same_text(theirs, "none")
        && !same_text(theirs, mine) {
        *existing = theirs.to_owned();
        proof {
            request_body::law_body_mode_is_canonical(incoming@);
        }
        true
    } else {
        false
    }
}

fn fill_url(existing: &mut String, incoming: String) -> (changed: bool)
    ensures
        final(existing)@ == merged_url(old(existing)@, incoming@),
        changed == (final(existing)@ != old(existing)@),
{
    if !same_text(existing.as_str(), incoming.as_str()) && contains_char(incoming.as_str(), '?')
        && (!contains_char(existing.as_str(), '?') || incoming.as_str().as_bytes().len()
        > existing.as_str().as_bytes().len()) {
        *existing = incoming;
        true
    } else {
        false
    }
}

/// Fills the gaps of the existing request; `true` where that changed it.
pub fn merge_endpoint_details(existing: &mut Endpoint, incoming: Endpoint) -> (changed: bool)
    ensures
        final(existing)@ == merged(old(existing)@, incoming@),
        changed == (final(existing)@ != old(existing)@),
{
    let ghost before = existing@;
    let collection_id = fill_text(
        &mut existing.source_collection_id,
        incoming.source_collection_id,
    );
    let folder_id = fill_text(&mut existing.source_folder_id, incoming.source_folder_id);
    let collection = fill_collection(&mut existing.collection, incoming.collection);
    let folder_path = fill_text(&mut existing.folder_path, incoming.folder_path);
    let headers = fill_headers(&mut existing.headers, incoming.headers);
    let query_params = fill_params(&mut existing.query_params, incoming.query_params);
    let body = fill_text(&mut existing.body, incoming.body);
    let mode = fill_body_mode(&mut existing.body_mode, incoming.body_mode.as_str());
    let url = fill_url(&mut existing.url, incoming.url);
    let changed = collection_id || folder_id || collection || folder_path || headers
        || query_params || body || mode || url;
    assert(!changed ==> existing@ =~= before);
    changed
}

/// A merge fills gaps only: what identifies the request and what it does stays, headers stay in
/// their place, and a detail that is there is not overwritten.
pub proof fn law_merge_fills_gaps_only(existing: EndpointView, incoming: EndpointView)
    ensures
        merged(existing, incoming).id == existing.id,
        merged(existing, incoming).source_request_id == existing.source_request_id,
        merged(existing, incoming).name == existing.name,
        merged(existing, incoming).method == existing.method,
        merged(existing, incoming).scripts == existing.scripts,
        existing.headers.is_prefix_of(merged(existing, incoming).headers),
        !text::is_blank(existing.source_collection_id) ==> merged(
            existing,
            incoming,
        ).source_collection_id == existing.source_collection_id,
        !text::is_blank(existing.source_folder_id) ==> merged(existing, incoming).source_folder_id
            == existing.source_folder_id,
        !is_uncollected(existing.collection) ==> merged(existing, incoming).collection
            == existing.collection,
        !text::is_blank(existing.folder_path) ==> merged(existing, incoming).folder_path
            == existing.folder_path,
        existing.query_params.len() > 0 ==> merged(existing, incoming).query_params
            == existing.query_params,
        !text::is_blank(existing.body) ==> merged(existing, incoming).body == existing.body,
{
    lemma_merged_headers_prefix(existing.headers, incoming.headers);
}

/// Merging the same request twice is merging it once.
pub proof fn law_merge_is_done_once(existing: EndpointView, incoming: EndpointView)
    ensures
        merged(merged(existing, incoming), incoming) == merged(existing, incoming),
{
    let once = merged(existing, incoming);
    request_body::law_body_mode_is_canonical(incoming.body_mode);
    if existing.headers.len() == 0 {
        assert forall|j: int|
            0 <= j < incoming.headers.len() && !text::is_blank(
                (#[trigger] incoming.headers[j]).0,
            ) implies has_header(incoming.headers, header_name(incoming.headers[j])) by {}
        lemma_known_headers_add_nothing(incoming.headers, incoming.headers);
    } else {
        lemma_merged_headers_prefix(existing.headers, incoming.headers);
        law_header_merge_is_stable(existing.headers, incoming.headers);
    }
    assert(merged(once, incoming) =~= once);
}

/// A merge with a request that says nothing new changes nothing.
pub proof fn law_merge_with_itself(endpoint: EndpointView)
    ensures
        merged(endpoint, endpoint) == endpoint,
{
    assert forall|j: int|
        0 <= j < endpoint.headers.len() && !text::is_blank(
            (#[trigger] endpoint.headers[j]).0,
        ) implies has_header(endpoint.headers, header_name(endpoint.headers[j])) by {}
    lemma_known_headers_add_nothing(endpoint.headers, endpoint.headers);
    assert(merged(endpoint, endpoint) =~= endpoint);
}

/// A merge of two requests with the same identity keeps it.
pub proof fn law_merge_keeps_identity(existing: EndpointView, incoming: EndpointView)
    requires
        same_identity(existing, incoming),
    ensures
        same_identity(merged(existing, incoming), existing),
        dedup_key(merged(existing, incoming)) == dedup_key(existing),
{
}

/// What a request has taken over once, it keeps: whatever is merged in between, a second merge
/// changes nothing.
pub proof fn law_merges_do_not_undo_each_other(
    existing: EndpointView,
    between: EndpointView,
    incoming: EndpointView,
)
    requires
        merged(existing, incoming) == existing,
    ensures
        merged(merged(existing, between), incoming) == merged(existing, between),
{
    let once = merged(existing, between);
    request_body::law_body_mode_is_canonical(incoming.body_mode);
    request_body::law_body_mode_is_canonical(between.body_mode);
    assert(merged(existing, incoming).headers == existing.headers);
    assert(merged(existing, incoming).query_params == existing.query_params);
    assert(merged(existing, incoming).body_mode == existing.body_mode);
    assert(merged(existing, incoming).url == existing.url);
    lemma_merged_headers_prefix(existing.headers, between.headers);
    if existing.headers.len() > 0 {
        lemma_merged_headers_known(existing.headers, incoming.headers);
        assert forall|j: int|
            0 <= j < incoming.headers.len() && !text::is_blank(
                (#[trigger] incoming.headers[j]).0,
            ) implies has_header(once.headers, header_name(incoming.headers[j])) by {
            let k = choose|k: int|
                0 <= k < existing.headers.len() && header_name(#[trigger] existing.headers[k])
                    == header_name(incoming.headers[j]);
            assert(once.headers.take(existing.headers.len() as int)[k] == existing.headers[k]);
            assert(once.headers[k] == existing.headers[k]);
        }
        lemma_known_headers_add_nothing(once.headers, incoming.headers);
    } else {
        assert(incoming.headers.len() == 0);
        assert(merged_header_list(once.headers, incoming.headers) =~= once.headers);
    }
    assert(merged_params(once.query_params, incoming.query_params) =~= once.query_params);
    assert(merged(once, incoming) =~= once);
}

/// A merge fills the gaps: where a detail is missing and the incoming request has it, it is taken
/// over.
pub proof fn law_merge_fills_the_gaps(existing: EndpointView, incoming: EndpointView)
    ensures
        ({
            let after = merged(existing, incoming);
            &&& text::is_blank(existing.body) && !text::is_blank(incoming.body) ==> after.body
                == incoming.body
            &&& text::is_blank(existing.folder_path) && !text::is_blank(incoming.folder_path)
                ==> after.folder_path == incoming.folder_path
            &&& text::is_blank(existing.source_collection_id) && !text::is_blank(
                incoming.source_collection_id,
            ) ==> after.source_collection_id == incoming.source_collection_id
            &&& text::is_blank(existing.source_folder_id) && !text::is_blank(
                incoming.source_folder_id,
            ) ==> after.source_folder_id == incoming.source_folder_id
            &&& (text::is_blank(existing.collection) || text::trim(existing.collection)
                == "General"@) && !text::is_blank(incoming.collection) && text::trim(
                incoming.collection,
            ) != "General"@ ==> after.collection == incoming.collection
            &&& existing.query_params.len() == 0 ==> after.query_params == incoming.query_params
            &&& existing.headers.len() == 0 ==> after.headers == incoming.headers
            &&& !existing.url.contains('?') && incoming.url.contains('?') ==> after.url
                == incoming.url
            &&& !incoming.url.contains('?') ==> after.url == existing.url
            &&& existing.url.contains('?') && incoming.url.contains('?') ==> after.url == (
            if encode_utf8(incoming.url).len() > encode_utf8(existing.url).len() {
                incoming.url
            } else {
                existing.url
            })
            &&& request_body::body_mode(existing.body_mode) == "raw"@ && request_body::body_mode(
                incoming.body_mode,
            ) != "none"@ && request_body::body_mode(incoming.body_mode) != "raw"@
                ==> after.body_mode == request_body::body_mode(incoming.body_mode)
            &&& request_body::body_mode(existing.body_mode) == "none"@ && request_body::body_mode(
                incoming.body_mode,
            ) != "none"@ ==> after.body_mode == request_body::body_mode(incoming.body_mode)
            &&& request_body::body_mode(incoming.body_mode) == "none"@ ==> after.body_mode
                == existing.body_mode
        }),
{
}

/// A header that the existing request has not is added behind those that it has; one that it has
/// is not added again, whatever the case of its name.
pub proof fn law_missing_headers_are_added(
    existing: Seq<(Seq<char>, Seq<char>)>,
    incoming: Seq<(Seq<char>, Seq<char>)>,
    j: int,
)
    requires
        0 <= j < incoming.len(),
        !text::is_blank(incoming[j].0),
        forall|i: int|
            0 <= i < existing.len() ==> text::ascii_lower(text::trim((#[trigger] existing[i]).0))
                != text::ascii_lower(text::trim(incoming[j].0)),
        forall|i: int|
            0 <= i < j ==> text::ascii_lower(text::trim((#[trigger] incoming[i]).0))
                != text::ascii_lower(text::trim(incoming[j].0)),
    ensures
        merged_headers(existing, incoming).contains(incoming[j]),
    decreases incoming.len(),
{
    let rest = incoming.drop_last();
    let before = merged_headers(existing, rest);
    let after = merged_headers(existing, incoming);
    if j == rest.len() {
        let name = text::ascii_lower(text::trim(incoming[j].0));
        if has_header(before, name) {
            let k = choose|k: int| 0 <= k < before.len() && header_name(#[trigger] before[k]) == name;
            lemma_merged_from(existing, rest, k);
            if existing.contains(before[k]) {
                let i = choose|i: int| 0 <= i < existing.len() && existing[i] == before[k];
                assert(text::ascii_lower(text::trim(existing[i].0)) != name);
            } else {
                let i = choose|i: int| 0 <= i < rest.len() && rest[i] == before[k];
                assert(rest[i] == incoming[i]);
                assert(text::ascii_lower(text::trim(incoming[i].0)) != name);
            }
        }
        assert(after.last() == incoming[j]);
    } else {
        assert(rest[j] == incoming[j]);
        assert forall|i: int| 0 <= i < j implies text::ascii_lower(text::trim((#[trigger] rest[i]).0))
            != text::ascii_lower(text::trim(rest[j].0)) by {
            assert(rest[i] == incoming[i]);
        }
        law_missing_headers_are_added(existing, rest, j);
        let k = choose|k: int| 0 <= k < before.len() && before[k] == incoming[j];
        assert(after[k] == incoming[j]);
    }
}

/// Each merged header was there or came in.
proof fn lemma_merged_from(
    existing: Seq<(Seq<char>, Seq<char>)>,
    incoming: Seq<(Seq<char>, Seq<char>)>,
    k: int,
)
    requires
        0 <= k < merged_headers(existing, incoming).len(),
    ensures
        existing.contains(merged_headers(existing, incoming)[k]) || incoming.contains(
            merged_headers(existing, incoming)[k],
        ),
    decreases incoming.len(),
{
    let whole = merged_headers(existing, incoming);
    if incoming.len() > 0 {
        let rest = incoming.drop_last();
        let before = merged_headers(existing, rest);
        if k < before.len() {
            lemma_merged_from(existing, rest, k);
            if !existing.contains(before[k]) {
                let i = choose|i: int| 0 <= i < rest.len() && rest[i] == before[k];
                assert(incoming[i] == whole[k]);
            }
        } else {
            assert(incoming[incoming.len() - 1] == whole[k]);
        }
    } else {
        assert(existing[k] == whole[k]);
    }
}

proof fn lemma_ends_differ(front: Seq<char>, a: Seq<char>, b: Seq<char>)
    requires
        a != b,
    ensures
        front + a != front + b,
{
    let n = front.len() as int;
    if front + a == front + b {
        assert(a =~= (front + a).skip(n));
        assert(b =~= (front + b).skip(n));
    }
}

proof fn lemma_more_differs(a: Seq<char>, b: Seq<char>, bar: Seq<char>, part: Seq<char>)
    requires
        a != b,
    ensures
        a + bar + part != b + bar + part,
{
    let x = a + bar + part;
    let y = b + bar + part;
    if x == y {
        assert(x.len() == a.len() + bar.len() + part.len());
        assert(y.len() == b.len() + bar.len() + part.len());
        assert(a =~= x.take(a.len() as int));
        assert(b =~= y.take(b.len() as int));
    }
}

/// Without a source, each of method, URL, collection, folder, name and query tells two requests
/// apart that are alike in the others.
pub proof fn law_each_part_tells_requests_apart(a: EndpointView, b: EndpointView)
    requires
        text::is_blank(a.source_request_id),
        text::is_blank(b.source_request_id),
    ensures
        text::unicode_upper(text::trim(a.method)) != text::unicode_upper(text::trim(b.method))
            && b == (EndpointView { method: b.method, ..a }) ==> dedup_key(a) != dedup_key(b),
        text::unicode_lower(text::trim(a.url)) != text::unicode_lower(text::trim(b.url)) && b == (
        EndpointView { url: b.url, ..a }) ==> dedup_key(a) != dedup_key(b),
        text::unicode_lower(text::trim(a.collection)) != text::unicode_lower(
            text::trim(b.collection),
        ) && b == (EndpointView { collection: b.collection, ..a }) ==> dedup_key(a) != dedup_key(b),
        text::unicode_lower(text::trim(a.folder_path)) != text::unicode_lower(
            text::trim(b.folder_path),
        ) && b == (EndpointView { folder_path: b.folder_path, ..a }) ==> dedup_key(a) != dedup_key(
            b,
        ),
        text::unicode_lower(text::trim(a.name)) != text::unicode_lower(text::trim(b.name)) && b
            == (EndpointView { name: b.name, ..a }) ==> dedup_key(a) != dedup_key(b),
        query_signature(a.query_params) != query_signature(b.query_params) && b == (
        EndpointView { query_params: b.query_params, ..a }) ==> dedup_key(a) != dedup_key(b),
{
    let bar = "|"@;
    let method = text::unicode_upper(text::trim(a.method));
    let url = text::unicode_lower(text::trim(a.url));
    let collection = text::unicode_lower(text::trim(a.collection));
    let folder = text::unicode_lower(text::trim(a.folder_path));
    let name = text::unicode_lower(text::trim(a.name));
    let query = query_signature(a.query_params);
    let to_url = method + bar + url;
    let to_collection = to_url + bar + collection;
    let to_folder = to_collection + bar + folder;
    let to_name = to_folder + bar + name;
    if b == (EndpointView { method: b.method, ..a }) && method != text::unicode_upper(text::trim(b.method)) {
        let other = text::unicode_upper(text::trim(b.method));
        let start = other;
        lemma_more_differs(method, start, bar, url);
        let past_url = start + bar + url;
        lemma_more_differs(to_url, past_url, bar, collection);
        let past_collection = past_url + bar + collection;
        lemma_more_differs(to_collection, past_collection, bar, folder);
        let past_folder = past_collection + bar + folder;
        lemma_more_differs(to_folder, past_folder, bar, name);
        let past_name = past_folder + bar + name;
        lemma_more_differs(to_name, past_name, bar, query);
    }
    if b == (EndpointView { url: b.url, ..a }) && url != text::unicode_lower(text::trim(b.url)) {
        let other = text::unicode_lower(text::trim(b.url));
        lemma_ends_differ(method + bar, url, other);
        let start = method + bar + other;
        lemma_more_differs(to_url, start, bar, collection);
        let past_collection = start + bar + collection;
        lemma_more_differs(to_collection, past_collection, bar, folder);
        let past_folder = past_collection + bar + folder;
        lemma_more_differs(to_folder, past_folder, bar, name);
        let past_name = past_folder + bar + name;
        lemma_more_differs(to_name, past_name, bar, query);
    }
    if b == (EndpointView { collection: b.collection, ..a }) && collection != text::unicode_lower(text::trim(b.collection)) {
        let other = text::unicode_lower(text::trim(b.collection));
        lemma_ends_differ(to_url + bar, collection, other);
        let start = to_url + bar + other;
        lemma_more_differs(to_collection, start, bar, folder);
        let past_folder = start + bar + folder;
        lemma_more_differs(to_folder, past_folder, bar, name);
        let past_name = past_folder + bar + name;
        lemma_more_differs(to_name, past_name, bar, query);
    }
    if b == (EndpointView { folder_path: b.folder_path, ..a }) && folder != text::unicode_lower(text::trim(b.folder_path)) {
        let other = text::unicode_lower(text::trim(b.folder_path));
        lemma_ends_differ(to_collection + bar, folder, other);
        let start = to_collection + bar + other;
        lemma_more_differs(to_folder, start, bar, name);
        let past_name = start + bar + name;
        lemma_more_differs(to_name, past_name, bar, query);
    }
    if b == (EndpointView { name: b.name, ..a }) && name != text::unicode_lower(text::trim(b.name)) {
        let other = text::unicode_lower(text::trim(b.name));
        lemma_ends_differ(to_folder + bar, name, other);
        let start = to_folder + bar + other;
        lemma_more_differs(to_name, start, bar, query);
    }
    if b == (EndpointView { query_params: b.query_params, ..a }) && query != query_signature(b.query_params) {
        let other = query_signature(b.query_params);
        lemma_ends_differ(to_name + bar, query, other);
        let start = to_name + bar + other;
    }
}

/// A query parameter counts by its name and its value, up to the case of ASCII letters and
/// surrounding white space; one without a name does not count.
pub proof fn law_query_counts_by_names_and_values(
    params: Seq<(Seq<char>, Seq<char>)>,
    name: Seq<char>,
    value: Seq<char>,
    blank: (Seq<char>, Seq<char>),
)
    requires
        !text::is_blank(name),
        text::is_blank(blank.0),
    ensures
        query_signature(params.push(blank)) == query_signature(params),
        query_signature(seq![(name, value)]) == text::ascii_lower(text::trim(name)) + "="@
            + text::ascii_lower(text::trim(value)),
{
    let f = |param: (Seq<char>, Seq<char>)| param_signature(param);
    let more = params.push(blank);
    more.lemma_filter_map_take_succ(f, params.len() as int);
    assert(more.take(params.len() as int) =~= params);
    assert(more.take(more.len() as int) =~= more);
    let one = seq![(name, value)];
    let part = text::ascii_lower(text::trim(name)) + "="@ + text::ascii_lower(text::trim(value));
    one.lemma_filter_map_take_succ(f, 0);
    assert(one.take(0).filter_map(f) =~= Seq::<Seq<char>>::empty());
    assert(one.take(1) =~= one);
    assert(one.filter_map(f) =~= seq![part]);
}

} // verus!
