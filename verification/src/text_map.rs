//! Maps keyed by text, walked in the order of their keys.

use crate::text;
use vstd::prelude::*;

verus! {

/// A map from texts to values that keeps its entries in the order of their
/// keys.
#[derive(Debug)]
pub struct TextMap<V> {
    entries: Vec<(String, V)>,
}

/// The keys of some entries.
pub open spec fn keys_of<V>(entries: Seq<(String, V)>) -> Seq<Seq<char>> {
    entries.map_values(|entry: (String, V)| entry.0@)
}

/// Texts in strictly increasing order.
pub open spec fn increasing(keys: Seq<Seq<char>>) -> bool {
    forall|i: int, j: int| #![trigger keys[i], keys[j]]
        0 <= i < j < keys.len() ==> text::text_before(keys[i], keys[j])
}

/// Texts in strictly increasing order are all different.
pub proof fn lemma_increasing_distinct(keys: Seq<Seq<char>>)
    requires
        increasing(keys),
    ensures
        keys.no_duplicates(),
{
    assert forall|i: int, j: int| 0 <= i < keys.len() && 0 <= j < keys.len() && i != j implies keys[i]
        != keys[j] by {
        text::lemma_text_order(keys[i], keys[j], keys[i]);
        if i < j {
            assert(text::text_before(keys[i], keys[j]));
        } else {
            assert(text::text_before(keys[j], keys[i]));
        }
    }
}

impl<V> TextMap<V> {
    #[verifier::type_invariant]
    spec fn sorted(self) -> bool {
        increasing(keys_of(self.entries@))
    }

    /// The keys in order.
    pub closed spec fn keys(&self) -> Seq<Seq<char>> {
        keys_of(self.entries@)
    }

    /// The values in the order of their keys.
    pub closed spec fn values(&self) -> Seq<V> {
        self.entries@.map_values(|entry: (String, V)| entry.1)
    }
}

impl<V> View for TextMap<V> {
    type V = Map<Seq<char>, V>;

    open spec fn view(&self) -> Map<Seq<char>, V> {
        Map::new(
            |key: Seq<char>| self.keys().contains(key),
            |key: Seq<char>| self.values()[self.keys().index_of(key)],
        )
    }
}

impl<V> TextMap<V> {
    proof fn lemma_entry(&self, i: int)
        requires
            0 <= i < self.entries@.len(),
            increasing(self.keys()),
        ensures
            self@.contains_key(self.entries@[i].0@),
            self@[self.entries@[i].0@] == self.entries@[i].1,
    {
        lemma_increasing_distinct(self.keys());
        let key = self.keys()[i];
        assert(self.keys().contains(key));
        let j = self.keys().index_of(key);
        assert(self.keys()[j] == key);
        assert(i == j);
    }

    /// A map without entries.
    pub fn new() -> (r: TextMap<V>)
        ensures
            r.keys() == Seq::<Seq<char>>::empty(),
            r@ == Map::<Seq<char>, V>::empty(),
    {
        let r: TextMap<V> = TextMap { entries: Vec::new() };
        assert(r.keys() == Seq::<Seq<char>>::empty());
        assert(r@ == Map::<Seq<char>, V>::empty());
        r
    }

    /// The number of entries.
    pub fn len(&self) -> (r: usize)
        ensures
            r == self.keys().len(),
            increasing(self.keys()),
            self.values().len() == self.keys().len(),
    {
        proof {
            use_type_invariant(self);
        }
        self.entries.len()
    }

    /// Whether there are no entries.
    pub fn is_empty(&self) -> (r: bool)
        ensures
            r == (self.keys().len() == 0),
            r == (self@ == Map::<Seq<char>, V>::empty()),
    {
        proof {
            if self.keys().len() == 0 {
                assert(self@ == Map::<Seq<char>, V>::empty());
            } else {
                assert(self.keys().contains(self.keys()[0]));
                assert(self@.contains_key(self.keys()[0]));
            }
        }
        self.entries.len() == 0
    }

    /// The key of an entry.
    pub fn key_at(&self, i: usize) -> (r: &str)
        requires
            i < self.keys().len(),
        ensures
            r@ == self.keys()[i as int],
            self@.contains_key(r@),
    {
        proof {
            assert(self.keys().contains(self.keys()[i as int]));
        }
        self.entries[i].0.as_str()
    }

    /// The value of an entry.
    pub fn value_at(&self, i: usize) -> (r: &V)
        requires
            i < self.keys().len(),
        ensures
            *r == self@[self.keys()[i as int]],
            *r == self.values()[i as int],
            self@.contains_key(self.keys()[i as int]),
    {
        proof {
            use_type_invariant(self);
            self.lemma_entry(i as int);
        }
        &self.entries[i].1
    }

    /// The position of the first entry whose key does not come before `key`.
    fn position(&self, key: &str) -> (r: usize)
        ensures
            r <= self.entries@.len(),
            forall|i: int|
                0 <= i < r ==> text::text_before(#[trigger] self.entries@[i].0@, key@),
            forall|i: int|
                r <= i < self.entries@.len() ==> !text::text_before(
                    #[trigger] self.entries@[i].0@,
                    key@,
                ),
    {
        proof {
            use_type_invariant(self);
        }
        let mut i: usize = 0;
        while i < self.entries.len()
            invariant
                i <= self.entries@.len(),
                increasing(keys_of(self.entries@)),
                forall|j: int|
                    0 <= j < i ==> text::text_before(#[trigger] self.entries@[j].0@, key@),
            decreases self.entries@.len() - i,
        {
            if !text::before(self.entries[i].0.as_str(), key) {
                assert forall|j: int| i <= j < self.entries@.len() implies !text::text_before(
                    #[trigger] self.entries@[j].0@,
                    key@,
                ) by {
                    if i < j {
                        let keys = keys_of(self.entries@);
                        assert(text::text_before(keys[i as int], keys[j]));
                        text::lemma_text_order(
                            self.entries@[i as int].0@,
                            self.entries@[j].0@,
                            key@,
                        );
                    }
                }
                return i;
            }
            i = i + 1;
        }
        i
    }

    /// The position of the entry with the key.
    fn find(&self, key: &str) -> (r: Option<usize>)
        ensures
            match r {
                Some(i) => i < self.entries@.len() && self.entries@[i as int].0@ == key@,
                None => !self@.contains_key(key@),
            },
    {
        let at = self.position(key);
        if at < self.entries.len() && text::same(self.entries[at].0.as_str(), key) {
            Some(at)
        } else {
            proof {
                if self@.contains_key(key@) {
                    let i = self.keys().index_of(key@);
                    assert(self.keys()[i] == key@);
                    assert(self.entries@[i].0@ == key@);
                    text::lemma_text_order(key@, key@, key@);
                    use_type_invariant(self);
                    if at < i {
                        assert(text::text_before(self.keys()[at as int], self.keys()[i]));
                        assert(!text::text_before(self.entries@[at as int].0@, key@));
                    }
                }
            }
            None
        }
    }

    /// The value of a key.
    pub fn get(&self, key: &str) -> (r: Option<&V>)
        ensures
            match r {
                Some(value) => self@.contains_key(key@) && *value == self@[key@],
                None => !self@.contains_key(key@),
            },
    {
        match self.find(key) {
            Some(i) => {
                proof {
                    use_type_invariant(self);
                    self.lemma_entry(i as int);
                }
                Some(&self.entries[i].1)
            },
            None => None,
        }
    }

    /// Whether a key has a value.
    pub fn contains_key(&self, key: &str) -> (r: bool)
        ensures
            r == self@.contains_key(key@),
    {
        match self.find(key) {
            Some(i) => {
                proof {
                    use_type_invariant(self);
                    self.lemma_entry(i as int);
                }
                true
            },
            None => false,
        }
    }

    /// Gives a key a value, and hands back the value it had.
    pub fn insert(&mut self, key: String, value: V) -> (r: Option<V>)
        ensures
            final(self)@ == old(self)@.insert(key@, value),
            r == (if old(self)@.contains_key(key@) {
                Some(old(self)@[key@])
            } else {
                None::<V>
            }),
    {
        let found = self.find(key.as_str());
        let at = self.position(key.as_str());
        proof {
            use_type_invariant(&*self);
        }
        let mut entries: Vec<(String, V)> = Vec::new();
        std::mem::swap(&mut entries, &mut self.entries);
        let ghost before = entries@;
        match found {
            Some(i) => {
                proof {
                    old(self).lemma_entry(i as int);
                }
                let (old_key, old_value) = entries.remove(i);
                entries.insert(i, (old_key, value));
                proof {
                    assert(entries@ =~= before.update(i as int, (before[i as int].0, value)));
                    lemma_view_update(before, entries@, i as int, key@, value);
                }
                self.entries = entries;
                Some(old_value)
            },
            None => {
                entries.insert(at, (key, value));
                proof {
                    lemma_insert_increasing(before, entries@, at as int, (key, value));
                    lemma_view_insert(before, entries@, at as int, (key, value));
                }
                self.entries = entries;
                None
            },
        }
    }

    /// Takes a key and its value out, and hands back the value it had.
    pub fn remove(&mut self, key: &str) -> (r: Option<V>)
        ensures
            final(self)@ == old(self)@.remove(key@),
            r == (if old(self)@.contains_key(key@) {
                Some(old(self)@[key@])
            } else {
                None::<V>
            }),
    {
        let found = self.find(key);
        proof {
            use_type_invariant(&*self);
        }
        match found {
            Some(i) => {
                let mut entries: Vec<(String, V)> = Vec::new();
                std::mem::swap(&mut entries, &mut self.entries);
                let ghost before = entries@;
                proof {
                    old(self).lemma_entry(i as int);
                }
                let (_, old_value) = entries.remove(i);
                proof {
                    lemma_remove_increasing(before, i as int);
                    lemma_view_remove(before, i as int, key@);
                }
                self.entries = entries;
                Some(old_value)
            },
            None => {
                assert(self@ == self@.remove(key@));
                None
            },
        }
    }
}

impl<V: Clone> Clone for TextMap<V> {
    fn clone(&self) -> (r: Self)
        ensures
            r.keys() == self.keys(),
            r.values().len() == self.values().len(),
            forall|i: int|
                0 <= i < self.values().len() ==> cloned::<V>(
                    self.values()[i],
                    #[trigger] r.values()[i],
                ),
    {
        proof {
            use_type_invariant(self);
        }
        let mut entries: Vec<(String, V)> = Vec::new();
        let mut i: usize = 0;
        while i < self.entries.len()
            invariant
                i <= self.entries@.len(),
                entries@.len() == i,
                forall|j: int|
                    0 <= j < i ==> self.entries@[j].0@ == (#[trigger] entries@[j]).0@ && cloned::<V>(
                        self.entries@[j].1,
                        entries@[j].1,
                    ),
            decreases self.entries@.len() - i,
        {
            let key = self.entries[i].0.clone();
            let value = self.entries[i].1.clone();
            entries.push((key, value));
            i = i + 1;
        }
        assert(keys_of(entries@) =~= keys_of(self.entries@));
        TextMap { entries }
    }
}

/// Maps with the same keys and the same values in order are the same map.
pub proof fn lemma_same_entries<V>(a: TextMap<V>, b: TextMap<V>)
    requires
        a.keys() == b.keys(),
        a.values() == b.values(),
    ensures
        a@ == b@,
{
    assert(a@ =~= b@);
}

spec fn view_of<V>(entries: Seq<(String, V)>) -> Map<Seq<char>, V> {
    Map::new(
        |key: Seq<char>| keys_of(entries).contains(key),
        |key: Seq<char>|
            entries.map_values(|entry: (String, V)| entry.1)[keys_of(entries).index_of(key)],
    )
}

proof fn lemma_view_at<V>(entries: Seq<(String, V)>, i: int)
    requires
        increasing(keys_of(entries)),
        0 <= i < entries.len(),
    ensures
        view_of(entries).contains_key(entries[i].0@),
        view_of(entries)[entries[i].0@] == entries[i].1,
{
    lemma_increasing_distinct(keys_of(entries));
    let key = keys_of(entries)[i];
    assert(keys_of(entries).contains(key));
    assert(keys_of(entries)[keys_of(entries).index_of(key)] == key);
}

proof fn lemma_view_update<V>(
    before: Seq<(String, V)>,
    after: Seq<(String, V)>,
    at: int,
    key: Seq<char>,
    value: V,
)
    requires
        increasing(keys_of(before)),
        0 <= at < before.len(),
        before[at].0@ == key,
        after == before.update(at, (before[at].0, value)),
    ensures
        increasing(keys_of(after)),
        view_of(after) == view_of(before).insert(key, value),
{
    assert(keys_of(after) =~= keys_of(before));
    lemma_view_at(before, at);
    assert forall|k: Seq<char>| keys_of(before).contains(k) implies view_of(after)[k]
        == view_of(before).insert(key, value)[k] by {
        let i = choose|i: int| 0 <= i < before.len() && keys_of(before)[i] == k;
        lemma_view_at(before, i);
        lemma_view_at(after, i);
        lemma_increasing_distinct(keys_of(before));
        if i == at {
            assert(k == key);
        } else {
            assert(keys_of(before)[i] != keys_of(before)[at]);
        }
    }
    assert(view_of(after) =~= view_of(before).insert(key, value));
}

proof fn lemma_insert_increasing<V>(
    before: Seq<(String, V)>,
    after: Seq<(String, V)>,
    at: int,
    entry: (String, V),
)
    requires
        increasing(keys_of(before)),
        0 <= at <= before.len(),
        after == before.insert(at, entry),
        forall|i: int| 0 <= i < at ==> text::text_before(#[trigger] before[i].0@, entry.0@),
        forall|i: int|
            at <= i < before.len() ==> !text::text_before(#[trigger] before[i].0@, entry.0@),
        !view_of(before).contains_key(entry.0@),
    ensures
        increasing(keys_of(after)),
{
    let keys = keys_of(after);
    assert forall|i: int, j: int| #![trigger keys[i], keys[j]] 0 <= i < j < keys.len()
        implies text::text_before(keys[i], keys[j]) by {
        let old_i = if i < at {
            i
        } else {
            i - 1
        };
        let old_j = if j < at {
            j
        } else {
            j - 1
        };
        let old_keys = keys_of(before);
        if i == at {
            assert(keys[j] == before[old_j].0@);
            assert(!text::text_before(before[old_j].0@, entry.0@));
            assert(old_keys[old_j] == before[old_j].0@);
            assert(old_keys.contains(before[old_j].0@));
            text::lemma_text_order(entry.0@, before[old_j].0@, entry.0@);
        } else if j == at {
            assert(text::text_before(before[old_i].0@, entry.0@));
        } else {
            assert(keys[i] == old_keys[old_i]);
            assert(keys[j] == old_keys[old_j]);
        }
    }
}

proof fn lemma_view_insert<V>(
    before: Seq<(String, V)>,
    after: Seq<(String, V)>,
    at: int,
    entry: (String, V),
)
    requires
        increasing(keys_of(before)),
        increasing(keys_of(after)),
        0 <= at <= before.len(),
        after == before.insert(at, entry),
    ensures
        view_of(after) == view_of(before).insert(entry.0@, entry.1),
{
    lemma_view_at(after, at);
    assert forall|k: Seq<char>| keys_of(before).contains(k) || k == entry.0@ implies {
        &&& #[trigger] view_of(after).contains_key(k)
        &&& view_of(after)[k] == view_of(before).insert(entry.0@, entry.1)[k]
    } by {
        if k != entry.0@ {
            let i = choose|i: int| 0 <= i < before.len() && keys_of(before)[i] == k;
            lemma_view_at(before, i);
            let j = if i < at {
                i
            } else {
                i + 1
            };
            assert(after[j] == before[i]);
            lemma_view_at(after, j);
        }
    }
    assert forall|k: Seq<char>| view_of(after).contains_key(k) implies view_of(before).insert(
        entry.0@,
        entry.1,
    ).contains_key(k) by {
        let j = choose|j: int| 0 <= j < after.len() && keys_of(after)[j] == k;
        if j != at {
            let i = if j < at {
                j
            } else {
                j - 1
            };
            assert(keys_of(before)[i] == k);
        }
    }
    assert(view_of(after) =~= view_of(before).insert(entry.0@, entry.1));
}

proof fn lemma_remove_increasing<V>(before: Seq<(String, V)>, at: int)
    requires
        increasing(keys_of(before)),
        0 <= at < before.len(),
    ensures
        increasing(keys_of(before.remove(at))),
{
    let keys = keys_of(before.remove(at));
    let old_keys = keys_of(before);
    assert forall|i: int, j: int| #![trigger keys[i], keys[j]] 0 <= i < j < keys.len()
        implies text::text_before(keys[i], keys[j]) by {
        assert(keys[i] == old_keys[if i < at {
            i
        } else {
            i + 1
        }]);
        assert(keys[j] == old_keys[if j < at {
            j
        } else {
            j + 1
        }]);
    }
}

proof fn lemma_view_remove<V>(before: Seq<(String, V)>, at: int, key: Seq<char>)
    requires
        increasing(keys_of(before)),
        0 <= at < before.len(),
        before[at].0@ == key,
    ensures
        view_of(before.remove(at)) == view_of(before).remove(key),
{
    let after = before.remove(at);
    lemma_remove_increasing(before, at);
    lemma_increasing_distinct(keys_of(before));
    assert forall|k: Seq<char>| view_of(before).contains_key(k) && k != key implies {
        &&& #[trigger] view_of(after).contains_key(k)
        &&& view_of(after)[k] == view_of(before)[k]
    } by {
        let i = choose|i: int| 0 <= i < before.len() && keys_of(before)[i] == k;
        let j = if i < at {
            i
        } else {
            i - 1
        };
        assert(after[j] == before[i]);
        lemma_view_at(before, i);
        lemma_view_at(after, j);
    }
    assert forall|k: Seq<char>| view_of(after).contains_key(k) implies view_of(before).contains_key(
        k,
    ) && k != key by {
        let j = choose|j: int| 0 <= j < after.len() && keys_of(after)[j] == k;
        let i = if j < at {
            j
        } else {
            j + 1
        };
        assert(keys_of(before)[i] == k);
        assert(keys_of(before)[i] != keys_of(before)[at]);
    }
    assert(view_of(after) =~= view_of(before).remove(key));
}

} // verus!
