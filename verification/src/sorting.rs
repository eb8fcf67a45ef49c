//! The order in which requests are listed.
use crate::models::{Endpoint, EndpointView};
use crate::text;
use crate::text::{less, same_text, to_lower};
use vstd::prelude::*;

verus! {

/// What a request is listed by.
pub struct SortKey {
    pub collection: String,
    pub folder_path: String,
    pub name: String,
}

/// What a request is listed by: collection, folder and name.
pub type KeyView = (Seq<char>, Seq<char>, Seq<char>);

impl View for SortKey {
    type V = (Seq<char>, Seq<char>, Seq<char>);

    open spec fn view(&self) -> (Seq<char>, Seq<char>, Seq<char>) {
        (self.collection@, self.folder_path@, self.name@)
    }
}

/// The key of a request with the given collection, folder and name; case does not count.
pub open spec fn listing_key(
    collection: Seq<char>,
    folder_path: Seq<char>,
    name: Seq<char>,
) -> KeyView {
    (
        text::unicode_lower(collection),
        text::unicode_lower(folder_path),
        text::unicode_lower(name),
    )
}

impl SortKey {
    pub fn new(collection: &str, folder_path: &str, name: &str) -> (r: Self)
        ensures
            r@ == listing_key(collection@, folder_path@, name@),
    {
        SortKey {
            collection: to_lower(collection),
            folder_path: to_lower(folder_path),
            name: to_lower(name),
        }
    }

    /// Whether the key comes before another.
    pub fn before(&self, other: &SortKey) -> (r: bool)
        ensures
            r == key_before(self@, other@),
    {
        if !same_text(self.collection.as_str(), other.collection.as_str()) {
            less(self.collection.as_str(), other.collection.as_str())
        } else if !same_text(self.folder_path.as_str(), other.folder_path.as_str()) {
            less(self.folder_path.as_str(), other.folder_path.as_str())
        } else {
            less(self.name.as_str(), other.name.as_str())
        }
    }
}

/// Whether a key comes before another: by collection, then by folder, then by name.
pub open spec fn key_before(a: KeyView, b: KeyView) -> bool {
    if a.0 != b.0 {
        text::comes_before(a.0, b.0)
    } else if a.1 != b.1 {
        text::comes_before(a.1, b.1)
    } else {
        text::comes_before(a.2, b.2)
    }
}

/// Whether the item at `i` is listed before the one at `j`: by their keys, and where those are
/// equal by their places.
pub open spec fn listed_before(keys: Seq<KeyView>, i: int, j: int) -> bool {
    key_before(keys[i], keys[j]) || (keys[i] == keys[j] && i < j)
}

/// Whether the places are those of all items, each once, in the order of the list.
pub open spec fn is_listing(keys: Seq<KeyView>, places: Seq<int>) -> bool {
    &&& places.len() == keys.len()
    &&& forall|k: int| 0 <= k < places.len() ==> 0 <= #[trigger] places[k] < keys.len()
    &&& forall|k: int, l: int|
        0 <= k < l < places.len() ==> listed_before(keys, #[trigger] places[k], #[trigger] places[l])
}

/// Before how many of the places, from the front, a key does not come.
pub open spec fn slot(keys: Seq<KeyView>, places: Seq<int>, key: KeyView) -> int
    decreases places.len(),
{
    if places.len() == 0 || key_before(key, keys[places[0]]) {
        0
    } else {
        1 + slot(keys, places.drop_first(), key)
    }
}

/// The places of the items in the order of the list.
pub open spec fn listing(keys: Seq<KeyView>) -> Seq<int>
    decreases keys.len(),
{
    if keys.len() == 0 {
        Seq::empty()
    } else {
        let rest = listing(keys.drop_last());
        rest.insert(slot(keys, rest, keys.last()), keys.len() - 1)
    }
}

// ---------------------------------------------------------------------------
// The order is total
// ---------------------------------------------------------------------------

proof fn lemma_texts_are_ordered(a: Seq<char>, b: Seq<char>)
    ensures
        a == b ==> !text::comes_before(a, b),
        a != b ==> text::comes_before(a, b) != text::comes_before(b, a),
    decreases a.len(),
{
    if a.len() > 0 && b.len() > 0 && a[0] == b[0] {
        lemma_texts_are_ordered(a.drop_first(), b.drop_first());
        if a.drop_first() == b.drop_first() {
            assert(a =~= seq![a[0]] + a.drop_first());
            assert(b =~= seq![b[0]] + b.drop_first());
        }
    } else if a.len() == 0 && b.len() == 0 {
        assert(a =~= b);
    }
}

proof fn lemma_text_order_is_transitive(a: Seq<char>, b: Seq<char>, c: Seq<char>)
    requires
        text::comes_before(a, b),
        text::comes_before(b, c),
    ensures
        text::comes_before(a, c),
    decreases a.len(),
{
    if a.len() > 0 && b.len() > 0 && c.len() > 0 && a[0] == b[0] && b[0] == c[0] {
        lemma_text_order_is_transitive(a.drop_first(), b.drop_first(), c.drop_first());
    }
}

pub proof fn lemma_keys_are_ordered(a: KeyView, b: KeyView)
    ensures
        !key_before(a, a),
        a != b ==> key_before(a, b) != key_before(b, a),
{
    lemma_texts_are_ordered(a.0, a.0);
    lemma_texts_are_ordered(a.1, a.1);
    lemma_texts_are_ordered(a.2, a.2);
    lemma_texts_are_ordered(a.0, b.0);
    lemma_texts_are_ordered(a.1, b.1);
    lemma_texts_are_ordered(a.2, b.2);
}

proof fn lemma_key_order_is_transitive(a: KeyView, b: KeyView, c: KeyView)
    requires
        key_before(a, b),
        key_before(b, c),
    ensures
        key_before(a, c),
{
    lemma_texts_are_ordered(a.0, b.0);
    lemma_texts_are_ordered(b.0, c.0);
    lemma_texts_are_ordered(a.0, c.0);
    lemma_texts_are_ordered(a.1, b.1);
    lemma_texts_are_ordered(b.1, c.1);
    lemma_texts_are_ordered(a.1, c.1);
    if text::comes_before(a.0, b.0) && text::comes_before(b.0, c.0) {
        lemma_text_order_is_transitive(a.0, b.0, c.0);
    }
    if text::comes_before(a.1, b.1) && text::comes_before(b.1, c.1) {
        lemma_text_order_is_transitive(a.1, b.1, c.1);
    }
    if text::comes_before(a.2, b.2) && text::comes_before(b.2, c.2) {
        lemma_text_order_is_transitive(a.2, b.2, c.2);
    }
}

proof fn lemma_slot_bounds(keys: Seq<KeyView>, places: Seq<int>, key: KeyView)
    ensures
        0 <= slot(keys, places, key) <= places.len(),
        forall|k: int|
            0 <= k < slot(keys, places, key) ==> !key_before(key, keys[#[trigger] places[k]]),
        slot(keys, places, key) < places.len() ==> key_before(
            key,
            keys[places[slot(keys, places, key)]],
        ),
    decreases places.len(),
{
    if places.len() == 0 || key_before(key, keys[places[0]]) {
    } else {
        let rest = places.drop_first();
        lemma_slot_bounds(keys, rest, key);
        assert forall|k: int| 0 <= k < slot(keys, places, key) implies !key_before(
            key,
            keys[#[trigger] places[k]],
        ) by {
            if k > 0 {
                assert(rest[k - 1] == places[k]);
            }
        }
    }
}

proof fn lemma_slot(keys: Seq<KeyView>, places: Seq<int>, key: KeyView, n: int)
    requires
        0 <= n <= places.len(),
        forall|k: int| 0 <= k < n ==> !key_before(key, keys[#[trigger] places[k]]),
        n == places.len() || key_before(key, keys[places[n]]),
    ensures
        slot(keys, places, key) == n,
    decreases n,
{
    if n > 0 {
        let rest = places.drop_first();
        assert(!key_before(key, keys[places[0]]));
        assert forall|k: int| 0 <= k < n - 1 implies !key_before(key, keys[#[trigger] rest[k]]) by {
            assert(rest[k] == places[k + 1]);
        }
        lemma_slot(keys, rest, key, n - 1);
    }
}

/// The list holds every item once, in the order of the keys, and items with equal keys stay in
/// the order in which they were.
pub proof fn law_listing_is_in_order(keys: Seq<KeyView>)
    ensures
        is_listing(keys, listing(keys)),
    decreases keys.len(),
{
    if keys.len() > 0 {
        let shorter = keys.drop_last();
        law_listing_is_in_order(shorter);
        let rest = listing(shorter);
        let last = keys.len() - 1;
        assert forall|k: int| 0 <= k < rest.len() implies keys[#[trigger] rest[k]]
            == shorter[rest[k]] by {
            assert(0 <= rest[k] < shorter.len());
        }
        let at = slot(keys, rest, keys.last());
        lemma_slot_bounds(keys, rest, keys.last());
        let all = listing(keys);
        assert(all == rest.insert(at, last));
        assert forall|k: int| 0 <= k < all.len() implies 0 <= #[trigger] all[k] < keys.len() by {
            if k < at {
                assert(all[k] == rest[k]);
            } else if k > at {
                assert(all[k] == rest[k - 1]);
            }
        }
        assert forall|k: int, l: int| 0 <= k < l < all.len() implies listed_before(
            keys,
            #[trigger] all[k],
            #[trigger] all[l],
        ) by {
            let a = if k < at {
                k
            } else {
                k - 1
            };
            let b = if l < at {
                l
            } else {
                l - 1
            };
            if k != at && l != at {
                assert(all[k] == rest[a] && all[l] == rest[b]);
                assert(listed_before(shorter, rest[a], rest[b]));
            } else if l == at {
                assert(all[k] == rest[k]);
                lemma_keys_are_ordered(keys[rest[k]], keys.last());
            } else {
                assert(all[l] == rest[b]);
                assert(key_before(keys.last(), keys[rest[at]]));
                if b > at {
                    assert(listed_before(shorter, rest[at], rest[b]));
                    if key_before(keys[rest[at]], keys[rest[b]]) {
                        lemma_key_order_is_transitive(keys.last(), keys[rest[at]], keys[rest[b]]);
                    }
                }
            }
        }
    }
}

/// Every item is listed.
pub proof fn lemma_listing_is_complete(keys: Seq<KeyView>, i: int)
    requires
        0 <= i < keys.len(),
    ensures
        listing(keys).contains(i),
    decreases keys.len(),
{
    let shorter = keys.drop_last();
    let rest = listing(shorter);
    let at = slot(keys, rest, keys.last());
    lemma_slot_bounds(keys, rest, keys.last());
    if i == keys.len() - 1 {
        assert(listing(keys)[at] == i);
    } else {
        lemma_listing_is_complete(shorter, i);
        let k = choose|k: int| 0 <= k < rest.len() && rest[k] == i;
        if k < at {
            assert(listing(keys)[k] == i);
        } else {
            assert(listing(keys)[k + 1] == i);
        }
    }
}

/// The places of the items in the order of the list.
pub fn listed_places(keys: &Vec<SortKey>) -> (places: Vec<usize>)
    ensures
        places@.map_values(|place: usize| place as int) == listing(text::views(keys@)),
{
    let ghost all = text::views(keys@);
    let mut places: Vec<usize> = Vec::new();
    let mut i: usize = 0;
    assert(places@.map_values(|place: usize| place as int) =~= listing(all.take(0)));
    while i < keys.len()
        invariant
            i <= keys@.len(),
            all == text::views(keys@),
            places@.len() == i,
            places@.map_values(|place: usize| place as int) == listing(all.take(i as int)),
            forall|k: int| 0 <= k < places@.len() ==> #[trigger] places@[k] < i,
        decreases keys@.len() - i,
    {
        let ghost before = places@.map_values(|place: usize| place as int);
        let mut at: usize = 0;
        while at < places.len() && !keys[i].before(&keys[places[at]])
            invariant
                i < keys@.len(),
                at <= places@.len(),
                all == text::views(keys@),
                forall|k: int| 0 <= k < places@.len() ==> #[trigger] places@[k] < i,
                forall|k: int| 0 <= k < at ==> !key_before(all[i as int], all[places@[k] as int]),
            decreases places@.len() - at,
        {
            at += 1;
        }
        proof {
            let part = all.take(i + 1);
            assert(part.drop_last() =~= all.take(i as int));
            assert(part.last() == all[i as int]);
            assert forall|k: int| 0 <= k < at implies !key_before(
                part.last(),
                part[#[trigger] before[k]],
            ) by {
                assert(before[k] == places@[k] as int);
                assert(part[before[k]] == all[before[k]]);
            }
            if at < places@.len() {
                assert(before[at as int] == places@[at as int] as int);
                assert(part[before[at as int]] == all[before[at as int]]);
            }
            lemma_slot(part, before, part.last(), at as int);
        }
        places.insert(at, i);
        assert(places@.map_values(|place: usize| place as int) =~= before.insert(
            at as int,
            i as int,
        ));
        i += 1;
    }
    assert(all.take(all.len() as int) =~= all);
    places
}

// ---------------------------------------------------------------------------
// Endpoints
// ---------------------------------------------------------------------------

pub open spec fn endpoint_key(endpoint: EndpointView) -> KeyView {
    listing_key(endpoint.collection, endpoint.folder_path, endpoint.name)
}

pub open spec fn endpoint_keys(endpoints: Seq<EndpointView>) -> Seq<KeyView> {
    endpoints.map_values(|endpoint: EndpointView| endpoint_key(endpoint))
}

/// The endpoints in the order of the list.
pub open spec fn sorted_endpoints(endpoints: Seq<EndpointView>) -> Seq<EndpointView> {
    listing(endpoint_keys(endpoints)).map_values(|place: int| endpoints[place])
}

/// The endpoints that are listed are the given ones.
pub proof fn law_sorting_keeps_endpoints(endpoints: Seq<EndpointView>, endpoint: EndpointView)
    ensures
        sorted_endpoints(endpoints).len() == endpoints.len(),
        sorted_endpoints(endpoints).contains(endpoint) == endpoints.contains(endpoint),
{
    let keys = endpoint_keys(endpoints);
    let order = listing(keys);
    law_listing_is_in_order(keys);
    if endpoints.contains(endpoint) {
        let i = choose|i: int| 0 <= i < endpoints.len() && endpoints[i] == endpoint;
        lemma_listing_is_complete(keys, i);
        let k = choose|k: int| 0 <= k < order.len() && order[k] == i;
        assert(sorted_endpoints(endpoints)[k] == endpoint);
    }
    if sorted_endpoints(endpoints).contains(endpoint) {
        let k = choose|k: int|
            0 <= k < sorted_endpoints(endpoints).len() && sorted_endpoints(endpoints)[k]
                == endpoint;
        assert(endpoints[order[k]] == endpoint);
    }
}

/// The endpoints in the order of the list.
pub fn sort_endpoints(endpoints: &Vec<Endpoint>) -> (r: Vec<Endpoint>)
    ensures
        text::views(r@) == sorted_endpoints(text::views(endpoints@)),
{
    let ghost all = text::views(endpoints@);
    let mut keys: Vec<SortKey> = Vec::new();
    let mut i: usize = 0;
    while i < endpoints.len()
        invariant
            i <= endpoints@.len(),
            all == text::views(endpoints@),
            keys@.len() == i,
            forall|j: int| 0 <= j < i ==> (#[trigger] keys@[j])@ == endpoint_key(all[j]),
        decreases endpoints@.len() - i,
    {
        let endpoint = &endpoints[i];
        keys.push(
            SortKey::new(
                endpoint.collection.as_str(),
                endpoint.folder_path.as_str(),
                endpoint.name.as_str(),
            ),
        );
        i += 1;
    }
    assert(text::views(keys@) =~= endpoint_keys(all));
    let places = listed_places(&keys);
    let ghost order = listing(endpoint_keys(all));
    proof {
        law_listing_is_in_order(endpoint_keys(all));
    }
    let mut r: Vec<Endpoint> = Vec::new();
    let mut n: usize = 0;
    while n < places.len()
        invariant
            n <= places@.len(),
            all == text::views(endpoints@),
            order == places@.map_values(|place: usize| place as int),
            forall|k: int| 0 <= k < order.len() ==> 0 <= #[trigger] order[k] < all.len(),
            r@.len() == n,
            forall|j: int| 0 <= j < n ==> (#[trigger] r@[j])@ == all[order[j]],
        decreases places@.len() - n,
    {
        assert(order[n as int] == places@[n as int] as int);
        r.push(endpoints[places[n]].clone());
        n += 1;
    }
    assert(text::views(r@) =~= sorted_endpoints(all));
    r
}

/// Texts are ordered by the first character in which they differ, and the beginning of a text
/// comes before it.
pub proof fn law_order_of_texts(start: Seq<char>, a: Seq<char>, b: Seq<char>)
    requires
        a.len() > 0,
        b.len() == 0 || a[0] != b[0],
    ensures
        b.len() > 0 ==> text::comes_before(start + a, start + b) == (a[0] < b[0]),
        b.len() == 0 ==> !text::comes_before(start + a, start + b) && text::comes_before(
            start + b,
            start + a,
        ),
    decreases start.len(),
{
    if start.len() > 0 {
        law_order_of_texts(start.drop_first(), a, b);
        assert((start + a).drop_first() =~= start.drop_first() + a);
        assert((start + b).drop_first() =~= start.drop_first() + b);
    } else {
        assert(start + a =~= a);
        assert(start + b =~= b);
    }
}

/// The saved requests are in the order of their keys.
pub proof fn law_saved_requests_are_in_order(endpoints: Seq<EndpointView>, a: int, b: int)
    requires
        0 <= a < b < endpoints.len(),
    ensures
        ({
            let first = sorted_endpoints(endpoints)[a];
            let second = sorted_endpoints(endpoints)[b];
            &&& sorted_endpoints(endpoints).len() == endpoints.len()
            &&& !key_before(
                (
                    text::unicode_lower(second.collection),
                    text::unicode_lower(second.folder_path),
                    text::unicode_lower(second.name),
                ),
                (
                    text::unicode_lower(first.collection),
                    text::unicode_lower(first.folder_path),
                    text::unicode_lower(first.name),
                ),
            )
        }),
{
    let keys = endpoint_keys(endpoints);
    law_listing_is_in_order(keys);
    let order = listing(keys);
    lemma_keys_are_ordered(keys[order[a]], keys[order[b]]);
}

} // verus!
