//! Request URLs and their query parameters.
use crate::models::{Endpoint, EndpointView, KeyValue};
use crate::placeholders;
use crate::placeholders::resolve_placeholders;
use crate::table::TextMap;
use crate::text;
use crate::text::{
    blank, chars_of, concat3, joined, position, split_any, split_once, string_between, trimmed,
};
use vstd::prelude::*;
use vstd::string::*;

verus! {

/// The parameter that one item of a query states: `key=value`, or a bare key.
pub open spec fn query_param(item: Seq<char>) -> Option<(Seq<char>, Seq<char>)> {
    let item = text::trim(item);
    if item.len() == 0 {
        None
    } else {
        match text::cut(item, '=') {
            Some((key, value)) => Some((text::trim(key), text::trim(value))),
            None => Some((text::trim(item), Seq::empty())),
        }
    }
}

/// The parameters that a query states.
pub open spec fn query_params(query: Seq<char>) -> Seq<(Seq<char>, Seq<char>)> {
    text::split_at(query, '&').filter_map(|item: Seq<char>| query_param(item))
}

/// A URL without its query, and the parameters that the query states. The fragment stays with
/// the URL.
pub open spec fn split_query(url: Seq<char>) -> (Seq<char>, Seq<(Seq<char>, Seq<char>)>) {
    match text::cut(url, '?') {
        None => (url, Seq::empty()),
        Some((base, rest)) => {
            let end = text::first_index(rest, '#');
            (base + rest.skip(end), query_params(rest.take(end)))
        },
    }
}

fn parse_query(query: &str) -> (params: Vec<KeyValue>)
    ensures
        text::views(params@) == query_params(query@),
{
    let items = split_any(query, '&', '&');
    let mut params: Vec<KeyValue> = Vec::new();
    let ghost all = text::views(items@);
    let ghost f = |item: Seq<char>| query_param(item);
    let mut i: usize = 0;
    assert(text::views(params@) =~= all.take(0).filter_map(f));
    while i < items.len()
        invariant
            i <= items@.len(),
            all == text::views(items@),
            f == (|item: Seq<char>| query_param(item)),
            text::views(params@) == all.take(i as int).filter_map(f),
        decreases items@.len() - i,
    {
        proof {
            all.lemma_filter_map_take_succ(f, i as int);
        }
        let item = trimmed(items[i].as_str());
        if !item.as_str().is_empty() {
            let param = match split_once(item.as_str(), '=') {
                Some((key, value)) => KeyValue {
                    key: trimmed(key.as_str()),
                    value: trimmed(value.as_str()),
                },
                None => KeyValue { key: trimmed(item.as_str()), value: String::new() },
            };
            proof {
                text::lemma_views_push(params@, param);
            }
            params.push(param);
        }
        i += 1;
    }
    assert(all.take(all.len() as int) =~= all);
    params
}

pub fn split_url_and_query_params(url: &str) -> (r: (String, Vec<KeyValue>))
    ensures
        split_query(url@) == (r.0@, text::views(r.1@)),
{
    match split_once(url, '?') {
        None => {
            let params: Vec<KeyValue> = Vec::new();
            assert(text::views(params@) =~= Seq::empty());
            (url.to_owned(), params)
        },
        Some((base, rest)) => {
            let chars = chars_of(rest.as_str());
            let end = position(&chars, '#');
            let query = string_between(&chars, 0, end);
            let fragment = string_between(&chars, end, chars.len());
            assert(query@ =~= rest@.take(end as int));
            assert(fragment@ =~= rest@.skip(end as int));
            let params = parse_query(query.as_str());
            (base.concat(fragment.as_str()), params)
        },
    }
}

/// The URL with the pairs added to its query, before the fragment.
pub open spec fn add_to_query(url: Seq<char>, pairs: Seq<Seq<char>>) -> Seq<char> {
    if pairs.len() == 0 {
        url
    } else {
        let end = text::first_index(url, '#');
        let base = url.take(end);
        let separator = if !base.contains('?') {
            "?"@
        } else if base.last() == '?' || base.last() == '&' {
            Seq::empty()
        } else {
            "&"@
        };
        base + separator + text::join(pairs, "&"@) + url.skip(end)
    }
}

pub fn append_query_pairs_to_url(url: String, query_pairs: &Vec<String>) -> (r: String)
    ensures
        r@ == add_to_query(url@, text::views(query_pairs@)),
{
    if query_pairs.len() == 0 {
        return url;
    }
    let chars = chars_of(url.as_str());
    let end = position(&chars, '#');
    let mut out = string_between(&chars, 0, end);
    let fragment = string_between(&chars, end, chars.len());
    let ghost base = out@;
    assert(base =~= url@.take(end as int));
    assert(fragment@ =~= url@.skip(end as int));
    if !text::contains_char(out.as_str(), '?') {
        out.append("?");
    } else if chars[end - 1] != '?' && chars[end - 1] != '&' {
        out.append("&");
    } else {
        assert(base + Seq::<char>::empty() =~= base);
    }
    out.append(joined(query_pairs, "&").as_str());
    out.append(fragment.as_str());
    out
}

/// How a query parameter is sent; parameters whose key resolves to nothing are not.
pub open spec fn sent_pair(
    param: (Seq<char>, Seq<char>),
    variables: Map<Seq<char>, Seq<char>>,
) -> Option<Seq<char>> {
    let key = text::trim(placeholders::resolved(param.0, variables));
    let value = text::trim(placeholders::resolved(param.1, variables));
    if key.len() == 0 {
        None
    } else if value.len() == 0 {
        Some(key)
    } else {
        Some(key + "="@ + value)
    }
}

/// The query parameters as they are sent.
pub open spec fn sent_pairs(
    params: Seq<(Seq<char>, Seq<char>)>,
    variables: Map<Seq<char>, Seq<char>>,
) -> Seq<Seq<char>> {
    params.filter_map(|param: (Seq<char>, Seq<char>)| sent_pair(param, variables))
}

/// The URL to which the request goes: placeholders resolved, query parameters appended.
pub open spec fn request_url(
    endpoint: EndpointView,
    variables: Map<Seq<char>, Seq<char>>,
) -> Seq<char> {
    add_to_query(
        text::trim(placeholders::resolved(endpoint.url, variables)),
        sent_pairs(endpoint.query_params, variables),
    )
}

pub fn resolve_endpoint_url(endpoint: &Endpoint, env_vars: &TextMap<String>) -> (r: String)
    ensures
        r@ == request_url(endpoint@, env_vars@),
{
    let base_url = trimmed(resolve_placeholders(endpoint.url.as_str(), env_vars).as_str());
    let mut pairs: Vec<String> = Vec::new();
    let ghost all = endpoint@.query_params;
    let ghost f = |param: (Seq<char>, Seq<char>)| sent_pair(param, env_vars@);
    let mut i: usize = 0;
    assert(text::views(pairs@) =~= all.take(0).filter_map(f));
    while i < endpoint.query_params.len()
        invariant
            i <= endpoint.query_params@.len(),
            all == text::views(endpoint.query_params@),
            f == (|param: (Seq<char>, Seq<char>)| sent_pair(param, env_vars@)),
            text::views(pairs@) == all.take(i as int).filter_map(f),
        decreases endpoint.query_params@.len() - i,
    {
        proof {
            all.lemma_filter_map_take_succ(f, i as int);
        }
        let param = &endpoint.query_params[i];
        let key = trimmed(resolve_placeholders(param.key.as_str(), env_vars).as_str());
        if !key.as_str().is_empty() {
            let value = trimmed(resolve_placeholders(param.value.as_str(), env_vars).as_str());
            let pair = if value.as_str().is_empty() {
                key
            } else {
                concat3(key.as_str(), "=", value.as_str())
            };
            proof {
                text::lemma_views_push(pairs@, pair);
            }
            pairs.push(pair);
        }
        i += 1;
    }
    assert(all.take(all.len() as int) =~= all);
    append_query_pairs_to_url(base_url, &pairs)
}

/// Whether a parameter says anything.
pub open spec fn says_something(param: (Seq<char>, Seq<char>)) -> bool {
    !text::is_blank(param.0) || !text::is_blank(param.1)
}

/// The parameters that say anything.
pub open spec fn kept_params(params: Seq<(Seq<char>, Seq<char>)>) -> Seq<(Seq<char>, Seq<char>)> {
    params.filter(|param: (Seq<char>, Seq<char>)| says_something(param))
}

/// The endpoint without parameters that say nothing; where no parameter is left, those in the
/// URL take their place.
pub open spec fn with_query_apart(endpoint: EndpointView) -> EndpointView {
    let kept = kept_params(endpoint.query_params);
    let (base, params) = split_query(endpoint.url);
    if kept.len() > 0 || params.len() == 0 {
        EndpointView { query_params: kept, ..endpoint }
    } else {
        EndpointView { url: base, query_params: params, ..endpoint }
    }
}

fn keep_params(params: &Vec<KeyValue>) -> (kept: Vec<KeyValue>)
    ensures
        text::views(kept@) == kept_params(text::views(params@)),
{
    let mut kept: Vec<KeyValue> = Vec::new();
    let ghost all = text::views(params@);
    let ghost p = |param: (Seq<char>, Seq<char>)| says_something(param);
    let mut i: usize = 0;
    assert(text::views(kept@) =~= all.take(0).filter(p)) by {
        reveal(Seq::filter);
    }
    while i < params.len()
        invariant
            i <= params@.len(),
            all == text::views(params@),
            p == (|param: (Seq<char>, Seq<char>)| says_something(param)),
            text::views(kept@) == all.take(i as int).filter(p),
        decreases params@.len() - i,
    {
        proof {
            reveal(Seq::filter);
            assert(all.take(i + 1).drop_last() =~= all.take(i as int));
        }
        if !blank(params[i].key.as_str()) || !blank(params[i].value.as_str()) {
            let param = params[i].clone();
            proof {
                text::lemma_views_push(kept@, param);
            }
            kept.push(param);
        }
        i += 1;
    }
    assert(all.take(all.len() as int) =~= all);
    kept
}

pub fn normalize_endpoint_url_and_query_params(endpoint: &mut Endpoint)
    ensures
        final(endpoint)@ == with_query_apart(old(endpoint)@),
{
    let kept = keep_params(&endpoint.query_params);
    let is_kept = kept.len() > 0;
    endpoint.query_params = kept;
    if is_kept {
        return;
    }
    let (base_url, query_params) = split_url_and_query_params(endpoint.url.as_str());
    if query_params.len() == 0 {
        return;
    }
    endpoint.url = base_url;
    endpoint.query_params = query_params;
}

/// Normalizing is done once: doing it again changes nothing, unless the query of the URL holds
/// an item that is nothing but `=`.
pub proof fn law_query_is_set_apart_once(endpoint: EndpointView)
    requires
        forall|i: int|
            0 <= i < split_query(endpoint.url).1.len() ==> says_something(
                #[trigger] split_query(endpoint.url).1[i],
            ),
    ensures
        with_query_apart(with_query_apart(endpoint)) == with_query_apart(endpoint),
{
    let p = |param: (Seq<char>, Seq<char>)| says_something(param);
    let once = with_query_apart(endpoint);
    let kept = kept_params(endpoint.query_params);
    let params = split_query(endpoint.url).1;
    if kept.len() > 0 || params.len() == 0 {
        assert forall|i: int| 0 <= i < kept.len() implies says_something(#[trigger] kept[i]) by {
            endpoint.query_params.lemma_filter_pred(p, i);
        }
        lemma_all_kept(kept);
    } else {
        lemma_all_kept(params);
    }
}

proof fn lemma_all_kept(params: Seq<(Seq<char>, Seq<char>)>)
    requires
        forall|i: int| 0 <= i < params.len() ==> says_something(#[trigger] params[i]),
    ensures
        kept_params(params) == params,
    decreases params.len(),
{
    reveal(Seq::filter);
    if params.len() > 0 {
        let rest = params.drop_last();
        assert forall|i: int| 0 <= i < rest.len() implies says_something(#[trigger] rest[i]) by {
            assert(rest[i] == params[i]);
        }
        lemma_all_kept(rest);
        assert(says_something(params[params.len() - 1]));
        assert(rest.push(params.last()) =~= params);
    }
}

/// A value that a query can carry as it is.
pub open spec fn is_plain_value(s: Seq<char>) -> bool {
    &&& text::trim(s) == s
    &&& !s.contains('&')
    &&& !s.contains('#')
}

/// A key that a query can carry as it is.
pub open spec fn is_plain_key(s: Seq<char>) -> bool {
    &&& s.len() > 0
    &&& is_plain_value(s)
    &&& !s.contains('=')
}

/// Whether the item of a query states the parameter: as `key=value`, or as the key alone where
/// the value is empty.
pub open spec fn is_item_of(item: Seq<char>, param: (Seq<char>, Seq<char>)) -> bool {
    item == param.0 + "="@ + param.1 || (param.1.len() == 0 && item == param.0)
}

/// Whether the items state the parameters, which a query can carry as they are.
pub open spec fn are_items_of(
    items: Seq<Seq<char>>,
    params: Seq<(Seq<char>, Seq<char>)>,
) -> bool {
    &&& items.len() == params.len()
    &&& forall|i: int|
        0 <= i < params.len() ==> is_plain_key((#[trigger] params[i]).0) && is_plain_value(
            params[i].1,
        ) && is_item_of(items[i], params[i])
}

/// The URL before its fragment.
pub open spec fn before_fragment(url: Seq<char>) -> Seq<char> {
    url.take(text::first_index(url, '#'))
}

/// Plain parameters that were added to a URL without query are found again, and what is left is
/// that URL with its fragment.
pub proof fn law_added_params_are_found(
    url: Seq<char>,
    items: Seq<Seq<char>>,
    params: Seq<(Seq<char>, Seq<char>)>,
)
    requires
        !before_fragment(url).contains('?'),
        params.len() > 0 || !url.contains('?'),
        are_items_of(items, params),
    ensures
        split_query(add_to_query(url, items)) == (url, params),
{
    if params.len() == 0 {
        lemma_absent(url, '?');
        assert(params =~= Seq::empty());
    } else {
        reveal_strlit("?");
        let head = before_fragment(url);
        let query = text::join(items, "&"@);
        let end = text::first_index(url, '#');
        text::lemma_first_of_bounds(url, '#', '#');
        lemma_items_are_read(items, params);
        assert forall|j: int| 0 <= j < head.len() implies head[j] != '?' by {
            assert(head.contains(head[j]));
        }
        assert(add_to_query(url, items) =~= head + seq!['?'] + query + url.skip(end));
        lemma_query_is_cut_out(head, query, url.skip(end));
        assert(head + url.skip(end) =~= url);
    }
}

/// Plain parameters that were added to a URL with a query are found after those that stood
/// there, unless that query ends with a second question mark.
pub proof fn law_added_params_come_last(
    url: Seq<char>,
    items: Seq<Seq<char>>,
    params: Seq<(Seq<char>, Seq<char>)>,
)
    requires
        text::cut(before_fragment(url), '?') matches Some((_, query)) && (query.len() == 0
            || query.last() != '?'),
        are_items_of(items, params),
    ensures
        split_query(add_to_query(url, items)) == (
            split_query(url).0,
            split_query(url).1 + params,
        ),
{
    reveal_strlit("&");
    let end = text::first_index(url, '#');
    let whole = before_fragment(url);
    let start = text::first_index(whole, '?');
    let head = whole.take(start);
    let query = whole.skip(start + 1);
    let fragment = url.skip(end);
    let added = text::join(items, "&"@);
    text::lemma_first_of_bounds(url, '#', '#');
    text::lemma_first_of_bounds(whole, '?', '?');
    assert forall|j: int| 0 <= j < query.len() implies query[j] != '#' by {
        assert(query[j] == url[start + 1 + j]);
    }
    assert(!query.contains('#'));
    assert(whole.contains(whole[start]));
    assert(whole =~= head + seq!['?'] + query);
    assert(url =~= head + seq!['?'] + query + fragment);
    lemma_query_is_cut_out(head, query, fragment);
    lemma_items_are_read(items, params);
    if items.len() == 0 {
        assert(split_query(url).1 + params =~= split_query(url).1);
    } else if query.len() == 0 {
        assert(query =~= Seq::empty());
        lemma_empty_query();
        assert(add_to_query(url, items) =~= head + seq!['?'] + added + fragment);
        lemma_query_is_cut_out(head, added, fragment);
        assert(Seq::<(Seq<char>, Seq<char>)>::empty() + params =~= params);
    } else {
        let before = if query.last() == '&' {
            query.drop_last()
        } else {
            query
        };
        let after = before + seq!['&'] + added;
        lemma_empty_query();
        lemma_queries_in_turn(before, added);
        lemma_queries_in_turn(before, Seq::empty());
        if query.last() == '&' {
            assert(before + seq!['&'] + Seq::<char>::empty() =~= query);
        }
        assert(query_params(before) + Seq::<(Seq<char>, Seq<char>)>::empty() =~= query_params(
            before,
        ));
        assert forall|j: int| 0 <= j < after.len() implies after[j] != '#' by {
            if j < before.len() {
                assert(after[j] == query[j]);
            } else if j > before.len() {
                assert(added.contains(added[j - before.len() - 1]));
            }
        }
        assert(!after.contains('#'));
        assert(add_to_query(url, items) =~= head + seq!['?'] + after + fragment);
        lemma_query_is_cut_out(head, after, fragment);
    }
}

/// A query is cut out between the first question mark and the fragment.
proof fn lemma_query_is_cut_out(head: Seq<char>, query: Seq<char>, fragment: Seq<char>)
    requires
        !head.contains('?'),
        !query.contains('#'),
        fragment.len() == 0 || fragment[0] == '#',
    ensures
        split_query(head + seq!['?'] + query + fragment) == (head + fragment, query_params(query)),
{
    let url = head + seq!['?'] + query + fragment;
    let rest = query + fragment;
    assert forall|j: int| 0 <= j < head.len() implies url[j] != '?' by {
        assert(head.contains(head[j]));
    }
    text::lemma_first_of(url, '?', '?', head.len() as int);
    assert(url.take(head.len() as int) =~= head);
    assert(url.skip(head.len() as int + 1) =~= rest);
    assert forall|j: int| 0 <= j < query.len() implies rest[j] != '#' by {
        assert(query.contains(query[j]));
    }
    text::lemma_first_of(rest, '#', '#', query.len() as int);
    assert(rest.take(query.len() as int) =~= query);
    assert(rest.skip(query.len() as int) =~= fragment);
}

proof fn lemma_empty_query()
    ensures
        query_params(Seq::empty()) == Seq::<(Seq<char>, Seq<char>)>::empty(),
{
    let f = |item: Seq<char>| query_param(item);
    Seq::lemma_filter_map_singleton(Seq::<char>::empty(), f);
}

/// What two queries state, joined by `&`, is what they state in turn.
proof fn lemma_queries_in_turn(a: Seq<char>, b: Seq<char>)
    ensures
        query_params(a + seq!['&'] + b) == query_params(a) + query_params(b),
{
    let f = |item: Seq<char>| query_param(item);
    text::lemma_split_in_turn(a, b, '&', '&', '&');
    text::lemma_filter_map_in_turn(text::split_at(a, '&'), text::split_at(b, '&'), f);
}

proof fn lemma_absent(s: Seq<char>, c: char)
    requires
        !s.contains(c),
    ensures
        text::first_index(s, c) == s.len(),
{
    assert forall|j: int| 0 <= j < s.len() implies s[j] != c by {
        assert(s.contains(s[j]));
    }
    text::lemma_first_of(s, c, c, s.len() as int);
}

proof fn lemma_join_absent(parts: Seq<Seq<char>>, sep: Seq<char>, c: char)
    requires
        !sep.contains(c),
        forall|i: int| 0 <= i < parts.len() ==> !(#[trigger] parts[i]).contains(c),
    ensures
        !text::join(parts, sep).contains(c),
    decreases parts.len(),
{
    if parts.len() >= 2 {
        let init = parts.drop_last();
        assert forall|i: int| 0 <= i < init.len() implies !(#[trigger] init[i]).contains(c) by {
            assert(init[i] == parts[i]);
        }
        lemma_join_absent(init, sep, c);
        let whole = text::join(parts, sep);
        let head = text::join(init, sep);
        if whole.contains(c) {
            let k = choose|k: int| 0 <= k < whole.len() && whole[k] == c;
            if k < head.len() {
                assert(head.contains(head[k]));
            } else if k < head.len() + sep.len() {
                assert(sep.contains(sep[k - head.len()]));
            } else {
                let last = parts[parts.len() - 1];
                assert(last.contains(last[k - head.len() - sep.len()]));
            }
        }
    }
}

/// A query that is made of items states their parameters, and has no fragment in it.
proof fn lemma_items_are_read(items: Seq<Seq<char>>, params: Seq<(Seq<char>, Seq<char>)>)
    requires
        are_items_of(items, params),
    ensures
        items.len() > 0 ==> query_params(text::join(items, "&"@)) == params,
        !text::join(items, "&"@).contains('#'),
{
    reveal_strlit("&");
    reveal_strlit("=");
    assert("&"@ =~= seq!['&']);
    assert forall|i: int| 0 <= i < items.len() implies !(#[trigger] items[i]).contains('&')
        && !items[i].contains('#') by {
        let item = items[i];
        let (key, value) = params[i];
        assert(is_plain_key(params[i].0) && is_plain_value(params[i].1));
        assert forall|j: int| 0 <= j < item.len() implies item[j] != '&' && item[j] != '#' by {
            if j < key.len() {
                assert(item[j] == key[j]);
                assert(key.contains(key[j]));
            } else if j > key.len() {
                assert(item[j] == value[j - key.len() - 1]);
                assert(value.contains(value[j - key.len() - 1]));
            }
        }
    }
    lemma_join_absent(items, "&"@, '#');
    if items.len() > 0 {
        text::lemma_split_join(items, '&', '&', '&');
        lemma_first_items_are_read(items, params, params.len() as int);
        assert(items.take(params.len() as int) =~= items);
        assert(params.take(params.len() as int) =~= params);
    }
}

proof fn lemma_first_items_are_read(
    items: Seq<Seq<char>>,
    params: Seq<(Seq<char>, Seq<char>)>,
    n: int,
)
    requires
        0 <= n <= params.len(),
        are_items_of(items, params),
    ensures
        items.take(n).filter_map(|item: Seq<char>| query_param(item)) == params.take(n),
    decreases n,
{
    let f = |item: Seq<char>| query_param(item);
    if n > 0 {
        lemma_first_items_are_read(items, params, n - 1);
        items.lemma_filter_map_take_succ(f, n - 1);
        lemma_item_is_read(items[n - 1], params[n - 1]);
        assert(params.take(n) =~= params.take(n - 1) + seq![params[n - 1]]);
    } else {
        assert(items.take(0).filter_map(f) =~= params.take(0));
    }
}

proof fn lemma_item_is_read(item: Seq<char>, param: (Seq<char>, Seq<char>))
    requires
        is_plain_key(param.0),
        is_plain_value(param.1),
        is_item_of(item, param),
    ensures
        query_param(item) == Some(param),
{
    reveal_strlit("=");
    let (key, value) = param;
    text::lemma_trimmed_ends(key);
    if value.len() > 0 {
        text::lemma_trimmed_ends(value);
        assert(item.last() == value.last());
    } else {
        assert(value =~= Seq::empty());
    }
    if item == key {
        lemma_absent(key, '=');
    } else {
        assert(item[0] == key[0]);
        assert(text::trim(item) == item);
        assert forall|j: int| 0 <= j < key.len() implies item[j] != '=' by {
            assert(key.contains(key[j]));
        }
        text::lemma_first_of(item, '=', '=', key.len() as int);
        assert(item.take(key.len() as int) =~= key);
        assert(item.skip(key.len() as int + 1) =~= value);
    }
}

/// The query parameters with their placeholders resolved and without surrounding white space.
pub open spec fn resolved_params(
    params: Seq<(Seq<char>, Seq<char>)>,
    variables: Map<Seq<char>, Seq<char>>,
) -> Seq<(Seq<char>, Seq<char>)> {
    params.map_values(
        |param: (Seq<char>, Seq<char>)|
            (
                text::trim(placeholders::resolved(param.0, variables)),
                text::trim(placeholders::resolved(param.1, variables)),
            ),
    )
}

/// Whether a query can carry the resolved parameters as they are.
pub open spec fn are_plain_params(
    params: Seq<(Seq<char>, Seq<char>)>,
    variables: Map<Seq<char>, Seq<char>>,
) -> bool {
    forall|i: int|
        0 <= i < params.len() ==> is_plain_key((#[trigger] resolved_params(params, variables)[i]).0)
            && is_plain_value(resolved_params(params, variables)[i].1)
}

/// The query parameters of a request are sent, all of them, resolved and in order, behind those
/// that its URL states; what is left of the URL stays as it is.
pub proof fn law_query_params_are_sent(
    endpoint: EndpointView,
    variables: Map<Seq<char>, Seq<char>>,
)
    requires
        are_plain_params(endpoint.query_params, variables),
    ensures
        ({
            let url = text::trim(placeholders::resolved(endpoint.url, variables));
            let params = resolved_params(endpoint.query_params, variables);
            let sent = request_url(endpoint, variables);
            &&& params.len() == 0 ==> sent == url
            &&& !before_fragment(url).contains('?') && params.len() > 0 ==> split_query(sent) == (
                url,
                params,
            )
            &&& (text::cut(before_fragment(url), '?') matches Some((_, query)) && (query.len() == 0
                || query.last() != '?')) ==> split_query(sent) == (
                split_query(url).0,
                split_query(url).1 + params,
            )
        }),
{
    let url = text::trim(placeholders::resolved(endpoint.url, variables));
    let params = resolved_params(endpoint.query_params, variables);
    let f = |param: (Seq<char>, Seq<char>)| sent_pair(param, variables);
    let all = endpoint.query_params;
    assert forall|i: int| 0 <= i < all.len() implies f(#[trigger] all[i]) is Some && is_item_of(
        f(all[i])->0,
        params[i],
    ) by {
        assert(is_plain_key(params[i].0));
        if params[i].1.len() == 0 {
            assert(params[i].1 =~= Seq::empty());
        }
    }
    text::lemma_filter_map_of_all(all, f);
    let items = sent_pairs(all, variables);
    assert forall|i: int| 0 <= i < params.len() implies is_plain_key((#[trigger] params[i]).0)
        && is_plain_value(params[i].1) && is_item_of(items[i], params[i]) by {
        assert(Some(items[i]) == f(all[i]));
    }
    if params.len() > 0 && !before_fragment(url).contains('?') {
        law_added_params_are_found(url, items, params);
    }
    if text::cut(before_fragment(url), '?') matches Some((_, query)) && (query.len() == 0
        || query.last() != '?') {
        law_added_params_come_last(url, items, params);
    }
}

/// A placeholder in the value of a query parameter is replaced before it is sent.
pub proof fn law_query_value_is_resolved(
    endpoint: EndpointView,
    variables: Map<Seq<char>, Seq<char>>,
    i: int,
    before: Seq<char>,
    name: Seq<char>,
    after: Seq<char>,
)
    requires
        are_plain_params(endpoint.query_params, variables),
        !before_fragment(
            text::trim(placeholders::resolved(endpoint.url, variables)),
        ).contains('?'),
        0 <= i < endpoint.query_params.len(),
        !endpoint.query_params[i].0.contains('$'),
        endpoint.query_params[i].1 == before + "${"@ + name + "}"@ + after,
        !before.contains('$'),
        !after.contains('$'),
        placeholders::is_name(name),
        variables.dom().contains(name),
    ensures
        split_query(request_url(endpoint, variables)).1[i] == (
            text::trim(endpoint.query_params[i].0),
            text::trim(before + variables[name] + after),
        ),
{
    law_query_params_are_sent(endpoint, variables);
    placeholders::law_plain_text_stays(endpoint.query_params[i].0, variables);
    placeholders::law_one_placeholder_is_replaced(before, name, after, variables);
}

/// A query parameter whose name resolves to nothing is not sent.
pub proof fn law_nameless_params_are_not_sent(
    before: Seq<(Seq<char>, Seq<char>)>,
    param: (Seq<char>, Seq<char>),
    after: Seq<(Seq<char>, Seq<char>)>,
    variables: Map<Seq<char>, Seq<char>>,
)
    requires
        text::is_blank(placeholders::resolved(param.0, variables)),
    ensures
        sent_pairs(before + seq![param] + after, variables) == sent_pairs(before, variables)
            + sent_pairs(after, variables),
{
    let f = |param: (Seq<char>, Seq<char>)| sent_pair(param, variables);
    text::lemma_filter_map_in_turn(before + seq![param], after, f);
    text::lemma_filter_map_in_turn(before, seq![param], f);
    Seq::lemma_filter_map_singleton(param, f);
    assert(before.filter_map(f) + Seq::<Seq<char>>::empty() =~= before.filter_map(f));
}

/// The query of a URL becomes the query parameters of a request that has none, and leaves the
/// URL; a request that has some keeps its URL, and of the parameters those that say anything.
pub proof fn law_query_is_set_apart(
    endpoint: EndpointView,
    base: Seq<char>,
    items: Seq<Seq<char>>,
    params: Seq<(Seq<char>, Seq<char>)>,
)
    requires
        are_items_of(items, params),
        params.len() > 0,
        !base.contains('?'),
        !base.contains('#'),
        endpoint.url == base + "?"@ + text::join(items, "&"@),
    ensures
        endpoint.query_params.len() == 0 ==> with_query_apart(endpoint) == (EndpointView {
            url: base,
            query_params: params,
            ..endpoint
        }),
        (exists|i: int|
            0 <= i < endpoint.query_params.len() && says_something(
                #[trigger] endpoint.query_params[i],
            )) ==> with_query_apart(endpoint).url == endpoint.url && with_query_apart(
            endpoint,
        ).query_params == endpoint.query_params.filter(
            |param: (Seq<char>, Seq<char>)|
                !text::is_blank(param.0) || !text::is_blank(param.1),
        ),
{
    lemma_absent(base, '#');
    assert(base.take(base.len() as int) =~= base);
    assert(base.skip(base.len() as int) =~= Seq::empty());
    law_added_params_are_found(base, items, params);
    assert(add_to_query(base, items) =~= endpoint.url);
    reveal(Seq::filter);
    let kept = kept_params(endpoint.query_params);
    if endpoint.query_params.len() == 0 {
        assert(kept =~= Seq::empty());
    }
    if exists|i: int|
        0 <= i < endpoint.query_params.len() && says_something(#[trigger] endpoint.query_params[i]) {
        let i = choose|i: int|
            0 <= i < endpoint.query_params.len() && says_something(
                #[trigger] endpoint.query_params[i],
            );
        let p = |param: (Seq<char>, Seq<char>)| says_something(param);
        let q = |param: (Seq<char>, Seq<char>)|
            !text::is_blank(param.0) || !text::is_blank(param.1);
        assert(p =~= q);
        endpoint.query_params.lemma_filter_contains(p, i);
        assert(kept.contains(endpoint.query_params[i]));
    }
}

} // verus!
