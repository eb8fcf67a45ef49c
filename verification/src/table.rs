//! Maps and sets keyed by text.
use crate::text;
use crate::text::same_text;
use vstd::prelude::*;

verus! {

/// Where the key first stands among the entries; their number where it does not.
pub open spec fn key_index<V>(entries: Seq<(String, V)>, key: Seq<char>) -> int
    decreases entries.len(),
{
    if entries.len() == 0 || entries[0].0@ == key {
        0
    } else {
        1 + key_index(entries.drop_first(), key)
    }
}

proof fn lemma_key_index<V>(entries: Seq<(String, V)>, key: Seq<char>, i: int)
    requires
        0 <= i <= entries.len(),
        forall|j: int| 0 <= j < i ==> entries[j].0@ != key,
        i == entries.len() || entries[i].0@ == key,
    ensures
        key_index(entries, key) == i,
    decreases i,
{
    if i > 0 {
        lemma_key_index(entries.drop_first(), key, i - 1);
    }
}

proof fn lemma_key_index_bounds<V>(entries: Seq<(String, V)>, key: Seq<char>)
    ensures
        0 <= key_index(entries, key) <= entries.len(),
        forall|j: int| 0 <= j < key_index(entries, key) ==> entries[j].0@ != key,
        key_index(entries, key) < entries.len() ==> entries[key_index(entries, key)].0@ == key,
    decreases entries.len(),
{
    if entries.len() == 0 || entries[0].0@ == key {
    } else {
        let rest = entries.drop_first();
        lemma_key_index_bounds(rest, key);
        assert forall|j: int| 0 <= j < key_index(entries, key) implies entries[j].0@ != key by {
            if j > 0 {
                assert(rest[j - 1] == entries[j]);
            }
        }
    }
}

/// A map from text to values.
pub struct TextMap<V> {
    entries: Vec<(String, V)>,
}

impl<V: View> View for TextMap<V> {
    type V = Map<Seq<char>, V::V>;

    closed spec fn view(&self) -> Map<Seq<char>, V::V> {
        Map::new(
            |key: Seq<char>| key_index(self.entries@, key) < self.entries@.len(),
            |key: Seq<char>| self.entries@[key_index(self.entries@, key)].1@,
        )
    }
}

impl<V: View> TextMap<V> {
    pub fn new() -> (map: Self)
        ensures
            map@ == Map::<Seq<char>, V::V>::empty(),
    {
        let map = TextMap { entries: Vec::new() };
        assert(map@ =~= Map::<Seq<char>, V::V>::empty());
        map
    }

    fn position(&self, key: &str) -> (i: usize)
        ensures
            i == key_index(self.entries@, key@),
            i <= self.entries@.len(),
    {
        let mut i: usize = 0;
        while i < self.entries.len() && !same_text(self.entries[i].0.as_str(), key)
            invariant
                i <= self.entries@.len(),
                forall|j: int| 0 <= j < i ==> self.entries@[j].0@ != key@,
            decreases self.entries@.len() - i,
        {
            i += 1;
        }
        proof {
            lemma_key_index(self.entries@, key@, i as int);
        }
        i
    }

    pub fn get(&self, key: &str) -> (r: Option<&V>)
        ensures
            match r {
                Some(value) => self@.dom().contains(key@) && self@[key@] == value@,
                None => !self@.dom().contains(key@),
            },
    {
        let i = self.position(key);
        if i < self.entries.len() {
            Some(&self.entries[i].1)
        } else {
            None
        }
    }

    /// Binds the key to the value, in place of what it was bound to.
    pub fn insert(&mut self, key: String, value: V)
        ensures
            final(self)@ == old(self)@.insert(key@, value@),
    {
        let i = self.position(key.as_str());
        let ghost before = self.entries@;
        if i < self.entries.len() {
            proof {
                lemma_key_index_bounds(before, key@);
            }
            self.entries.set(i, (key, value));
        } else {
            proof {
                lemma_key_index_bounds(before, key@);
            }
            self.entries.push((key, value));
        }
        proof {
            let after = self.entries@;
            assert forall|k: Seq<char>| k != key@ implies (#[trigger] key_index(after, k)
                < after.len() <==> key_index(before, k) < before.len()) && (key_index(before, k)
                < before.len() ==> key_index(after, k) == key_index(before, k) && after[key_index(
                before,
                k,
            )] == before[key_index(before, k)] && 0 <= key_index(before, k)) by {
                lemma_key_index_bounds(before, k);
                let n = key_index(before, k);
                if n < before.len() || i < before.len() {
                    assert forall|j: int| 0 <= j < n implies after[j].0@ != k by {
                        assert(before[j].0@ != k);
                    }
                    lemma_key_index(after, k, n);
                } else {
                    assert forall|j: int| 0 <= j < after.len() implies after[j].0@ != k by {
                        if j < before.len() {
                            assert(before[j].0@ != k);
                        }
                    }
                    lemma_key_index(after, k, after.len() as int);
                }
            }
            assert forall|j: int| 0 <= j < i implies after[j].0@ != key@ by {
                assert(before[j].0@ != key@);
            }
            lemma_key_index(after, key@, i as int);
            let wanted = old(self)@.insert(key@, value@);
            assert forall|k: Seq<char>| #[trigger] self@.dom().contains(k) <==> wanted.dom().contains(
                k,
            ) by {
                assert(k != key@ ==> (key_index(after, k) < after.len() <==> key_index(before, k)
                    < before.len()));
            }
            assert forall|k: Seq<char>| #[trigger] self@.dom().contains(k) implies self@[k]
                == wanted[k] by {
                assert(k != key@ ==> (key_index(after, k) < after.len() <==> key_index(before, k)
                    < before.len()));
            }
            assert(self@ =~= wanted);
        }
    }

    /// Takes over every binding of the other map.
    pub fn extend(&mut self, other: TextMap<V>)
        ensures
            final(self)@ == old(self)@.union_prefer_right(other@),
    {
        let ghost entries = other.entries@;
        let ghost start = self@;
        let mut rest: Vec<(String, V)> = other.entries;
        assert(rest@ =~= entries.take(entries.len() as int));
        assert(start.union_prefer_right(pairs_map(entries.skip(entries.len() as int))) =~= start);
        // The entries are taken from the back, so that the first binding of a key comes last.
        while rest.len() > 0
            invariant
                rest@ == entries.take(rest@.len() as int),
                rest@.len() <= entries.len(),
                self@ == start.union_prefer_right(
                    pairs_map(entries.skip(rest@.len() as int)),
                ),
            decreases rest@.len(),
        {
            let ghost n = rest@.len() - 1;
            let entry = rest.pop().unwrap();
            let ghost before = self@;
            self.insert(entry.0, entry.1);
            proof {
                assert(entry == entries[n]);
                let tail = entries.skip(n);
                assert(tail.drop_first() =~= entries.skip(n + 1));
                assert(rest@ =~= entries.take(n));
                assert forall|k: Seq<char>| k != entry.0@ implies #[trigger] key_index(tail, k)
                    == 1 + key_index(entries.skip(n + 1), k) by {}
                lemma_pairs_map_first(tail);
                assert(self@ =~= start.union_prefer_right(pairs_map(tail)));
            }
        }
        assert(entries.skip(0) =~= entries);
    }
}

/// What a list of entries binds.
spec fn pairs_map<V: View>(entries: Seq<(String, V)>) -> Map<Seq<char>, V::V> {
    Map::new(
        |key: Seq<char>| key_index(entries, key) < entries.len(),
        |key: Seq<char>| entries[key_index(entries, key)].1@,
    )
}

proof fn lemma_pairs_map_first<V: View>(entries: Seq<(String, V)>)
    requires
        entries.len() > 0,
    ensures
        pairs_map(entries) == pairs_map(entries.drop_first()).insert(
            entries[0].0@,
            entries[0].1@,
        ),
{
    let rest = entries.drop_first();
    assert forall|k: Seq<char>| k != entries[0].0@ implies #[trigger] key_index(entries, k) == 1
        + key_index(rest, k) && key_index(rest, k) >= 0 by {
        lemma_key_index_bounds(rest, k);
    }
    assert(pairs_map(entries) =~= pairs_map(rest).insert(entries[0].0@, entries[0].1@));
}

/// A set of texts. Each of them is held once.
pub struct TextSet {
    items: Vec<String>,
}

impl View for TextSet {
    type V = Set<Seq<char>>;

    closed spec fn view(&self) -> Set<Seq<char>> {
        text::views(self.items@).to_set()
    }
}

impl TextSet {
    #[verifier::type_invariant]
    spec fn holds_each_once(self) -> bool {
        text::views(self.items@).no_duplicates()
    }

    pub fn new() -> (set: Self)
        ensures
            set@ == Set::<Seq<char>>::empty(),
    {
        let set = TextSet { items: Vec::new() };
        assert(set@ =~= Set::<Seq<char>>::empty());
        set
    }

    pub fn contains(&self, item: &str) -> (r: bool)
        ensures
            r == self@.contains(item@),
    {
        let ghost all = text::views(self.items@);
        let mut i: usize = 0;
        while i < self.items.len()
            invariant
                i <= self.items@.len(),
                all == text::views(self.items@),
                forall|j: int| 0 <= j < i ==> all[j] != item@,
            decreases self.items@.len() - i,
        {
            if same_text(self.items[i].as_str(), item) {
                assert(all[i as int] == item@);
                return true;
            }
            i += 1;
        }
        false
    }

    pub fn is_empty(&self) -> (r: bool)
        ensures
            r == (self@ == Set::<Seq<char>>::empty()),
    {
        let ghost all = text::views(self.items@);
        proof {
            if all.len() > 0 {
                assert(self@.contains(all[0]));
            } else {
                assert(self@ =~= Set::<Seq<char>>::empty());
            }
        }
        self.items.len() == 0
    }

    /// The number of texts in the set.
    pub fn len(&self) -> (n: usize)
        ensures
            n == self@.len(),
    {
        proof {
            use_type_invariant(&*self);
            text::views(self.items@).unique_seq_to_set();
        }
        self.items.len()
    }

    /// Puts the text into the set; `false` where it was there before.
    pub fn insert(&mut self, item: String) -> (added: bool)
        ensures
            final(self)@ == old(self)@.insert(item@),
            added == !old(self)@.contains(item@),
    {
        if self.contains(item.as_str()) {
            assert(self@ =~= old(self)@.insert(item@));
            return false;
        }
        proof {
            use_type_invariant(&*self);
        }
        let ghost before = text::views(self.items@);
        let mut items: Vec<String> = Vec::new();
        std::mem::swap(&mut items, &mut self.items);
        proof {
            text::lemma_views_push(items@, item);
        }
        items.push(item);
        proof {
            let after = text::views(items@);
            assert(after.no_duplicates()) by {
                assert forall|i: int, j: int|
                    0 <= i < after.len() && 0 <= j < after.len() && i != j implies after[i]
                    != after[j] by {
                    if i < before.len() && j < before.len() {
                        assert(before[i] != before[j]);
                    } else if i < before.len() {
                        assert(before.contains(after[i]));
                    } else {
                        assert(before.contains(after[j]));
                    }
                }
            }
            assert forall|t: Seq<char>| #[trigger] after.contains(t) <==> before.contains(t) || t
                == item@ by {
                if before.contains(t) {
                    let k = choose|k: int| 0 <= k < before.len() && before[k] == t;
                    assert(after[k] == t);
                }
                assert(after[before.len() as int] == item@);
            }
        }
        self.items = items;
        assert(self@ =~= old(self)@.insert(item@));
        true
    }
}

} // verus!
