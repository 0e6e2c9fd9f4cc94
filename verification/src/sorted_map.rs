//! A map from byte-string keys to values, kept sorted by key.
//!
//! This is the in-memory form of one named database of the store: its
//! entries are held in strictly increasing key order, so every key occurs
//! once and a lookup is a binary search.

use crate::bytes::{compare_keys, key_lt, lemma_key_lt_irreflexive, lemma_key_lt_transitive, KeyOrder};
use vstd::prelude::*;

verus! {

/// One entry of a sorted map.
pub struct Entry<V> {
    pub key: Vec<u8>,
    pub value: V,
}

/// A map from byte strings to `V`, sorted by key.
pub struct ByteMap<V> {
    entries: Vec<Entry<V>>,
}

/// Where a key stands in a sorted map: at the index that holds it, or at the
/// index where it would have to be inserted.
pub enum Slot {
    Found(usize),
    Vacant(usize),
}

/// The keys of `keys` are strictly increasing.
pub open spec fn strictly_sorted(keys: Seq<Seq<u8>>) -> bool {
    forall|i: int, j: int| 0 <= i < j < keys.len() ==> key_lt(#[trigger] keys[i], #[trigger] keys[j])
}

/// In a strictly sorted sequence no key occurs twice.
pub proof fn lemma_sorted_keys_distinct(keys: Seq<Seq<u8>>, i: int, j: int)
    requires
        strictly_sorted(keys),
        0 <= i < keys.len(),
        0 <= j < keys.len(),
        keys[i] == keys[j],
    ensures
        i == j,
{
    lemma_key_lt_irreflexive(keys[i]);
}

impl<V> ByteMap<V> {
    /// The keys, in the order in which they are stored.
    pub closed spec fn keys(&self) -> Seq<Seq<u8>> {
        Seq::new(self.entries@.len(), |i: int| self.entries@[i].key@)
    }

    /// The values, each at the index of its key.
    pub closed spec fn values(&self) -> Seq<V> {
        Seq::new(self.entries@.len(), |i: int| self.entries@[i].value)
    }

    /// The map is well formed: one value per key, keys strictly increasing.
    pub open spec fn wf(&self) -> bool {
        &&& self.keys().len() == self.values().len()
        &&& strictly_sorted(self.keys())
    }

    /// The map as a mathematical map.
    pub open spec fn view(&self) -> Map<Seq<u8>, V> {
        Map::new(
            |key: Seq<u8>| self.keys().contains(key),
            |key: Seq<u8>| self.values()[self.keys().index_of(key)],
        )
    }

    /// The entry stored at index `i` is the value that the view gives its key.
    pub proof fn lemma_entry_in_view(&self, i: int)
        requires
            self.wf(),
            0 <= i < self.keys().len(),
        ensures
            self@.contains_key(self.keys()[i]),
            self@[self.keys()[i]] == self.values()[i],
    {
        let key = self.keys()[i];
        assert(self.keys().contains(key));
        let j = self.keys().index_of(key);
        lemma_sorted_keys_distinct(self.keys(), i, j);
    }

    /// An empty map.
    pub fn new() -> (map: Self)
        ensures
            map.wf(),
            map@ == Map::<Seq<u8>, V>::empty(),
            map.keys().len() == 0,
    {
        let map = ByteMap { entries: Vec::new() };
        proof {
            assert(map@ =~= Map::<Seq<u8>, V>::empty());
        }
        map
    }

    /// The number of entries.
    pub fn len(&self) -> (count: usize)
        ensures
            count == self.keys().len(),
            count == self.values().len(),
    {
        self.entries.len()
    }

    /// The key stored at index `i`.
    pub fn key_at(&self, i: usize) -> (key: &Vec<u8>)
        requires
            i < self.keys().len(),
        ensures
            key@ == self.keys()[i as int],
    {
        &self.entries[i].key
    }

    /// The value stored at index `i`.
    pub fn value_at(&self, i: usize) -> (value: &V)
        requires
            i < self.keys().len(),
        ensures
            *value == self.values()[i as int],
    {
        &self.entries[i].value
    }

    /// Exchanges the value stored at index `i` with `value`.
    pub fn swap_value_at(&mut self, i: usize, value: &mut V)
        requires
            i < old(self).keys().len(),
        ensures
            *final(value) == old(self).values()[i as int],
            final(self).keys() == old(self).keys(),
            final(self).values() == old(self).values().update(i as int, *old(value)),
    {
        let ghost before = *self;
        core::mem::swap(&mut self.entries[i].value, value);
        proof {
            assert(self.keys() =~= before.keys());
            assert(self.values() =~= before.values().update(i as int, *old(value)));
        }
    }

    /// Appends an entry whose key is greater than every key of the map.
    pub fn push_last(&mut self, key: Vec<u8>, value: V)
        requires
            old(self).wf(),
            old(self).keys().len() > 0 ==> key_lt(old(self).keys().last(), key@),
        ensures
            final(self).wf(),
            final(self).keys() == old(self).keys().push(key@),
            final(self).values() == old(self).values().push(value),
            final(self)@ == old(self)@.insert(key@, value),
    {
        let ghost before = *self;
        let ghost stored = key@;
        self.entries.push(Entry { key, value });
        proof {
            assert(self.keys() =~= before.keys().push(stored));
            assert(self.values() =~= before.values().push(value));
            let last = before.keys().len() as int;
            assert forall|a: int, b: int| 0 <= a < b < self.keys().len() implies key_lt(
                #[trigger] self.keys()[a],
                #[trigger] self.keys()[b],
            ) by {
                if b == last && a < last - 1 {
                    lemma_key_lt_transitive(before.keys()[a], before.keys()[last - 1], stored);
                }
            }
            assert forall|k: Seq<u8>| #[trigger]
                self@.contains_key(k) == before@.insert(stored, value).contains_key(k) by {
                if self.keys().contains(k) {
                    let j = self.keys().index_of(k);
                    if j < last {
                        assert(before.keys()[j] == k);
                    }
                }
                if before.keys().contains(k) {
                    let j = before.keys().index_of(k);
                    assert(self.keys()[j] == k);
                }
                if k == stored {
                    assert(self.keys()[last] == k);
                }
            }
            assert forall|k: Seq<u8>| self@.contains_key(k) implies #[trigger] self@[k]
                == before@.insert(stored, value)[k] by {
                let j = self.keys().index_of(k);
                self.lemma_entry_in_view(j);
                if j < last {
                    before.lemma_entry_in_view(j);
                    if k == stored {
                        lemma_key_lt_irreflexive(stored);
                        if j < last - 1 {
                            lemma_key_lt_transitive(before.keys()[j], before.keys()[last - 1], stored);
                        }
                    }
                }
            }
            assert(self@ =~= before@.insert(stored, value));
        }
    }

    /// The entries of the map, from the last to the first.
    pub fn into_reversed_entries(self) -> (entries: Vec<Entry<V>>)
        requires
            self.wf(),
        ensures
            entries@.len() == self.keys().len(),
            forall|i: int|
                0 <= i < entries@.len() ==> (#[trigger] entries@[i]).key@ == self.keys()[
                    entries@.len() - 1 - i
                ] && entries@[i].value == self.values()[entries@.len() - 1 - i],
    {
        let ghost count = self.keys().len() as int;
        let mut rest = self.entries;
        let mut entries: Vec<Entry<V>> = Vec::new();
        while rest.len() > 0
            invariant
                count == self.keys().len(),
                rest@.len() + entries@.len() == count,
                rest@ == self.entries@.subrange(0, rest@.len() as int),
                forall|i: int|
                    0 <= i < entries@.len() ==> (#[trigger] entries@[i]).key@ == self.keys()[count
                        - 1 - i] && entries@[i].value == self.values()[count - 1 - i],
            decreases rest@.len(),
        {
            let ghost at = rest@.len() - 1;
            let ghost before = entries@;
            let entry = rest.pop().unwrap();
            proof {
                assert(entry == self.entries@[at]);
                assert(rest@ =~= self.entries@.subrange(0, at));
            }
            entries.push(entry);
            proof {
                assert forall|i: int| 0 <= i < entries@.len() implies (#[trigger] entries@[i]).key@
                    == self.keys()[count - 1 - i] && entries@[i].value == self.values()[count - 1
                    - i] by {
                    if i < before.len() {
                        assert(entries@[i] == before[i]);
                    }
                }
            }
        }
        entries
    }

    /// Finds `key` by binary search.
    pub fn slot(&self, key: &[u8]) -> (slot: Slot)
        requires
            self.wf(),
        ensures
            match slot {
                Slot::Found(i) => i < self.keys().len() && self.keys()[i as int] == key@,
                Slot::Vacant(i) => {
                    &&& i <= self.keys().len()
                    &&& !self.keys().contains(key@)
                    &&& forall|j: int| 0 <= j < i ==> key_lt(#[trigger] self.keys()[j], key@)
                    &&& forall|j: int| i <= j < self.keys().len()
                        ==> key_lt(key@, #[trigger] self.keys()[j])
                },
            },
    {
        let mut lo: usize = 0;
        let mut hi: usize = self.entries.len();
        while lo < hi
            invariant
                self.wf(),
                lo <= hi <= self.keys().len(),
                self.keys().len() == self.entries@.len(),
                forall|j: int| 0 <= j < lo ==> key_lt(#[trigger] self.keys()[j], key@),
                forall|j: int| hi <= j < self.keys().len() ==> key_lt(key@, #[trigger] self.keys()[j]),
            decreases hi - lo,
        {
            let mid = lo + (hi - lo) / 2;
            match compare_keys(self.entries[mid].key.as_slice(), key) {
                KeyOrder::Same => {
                    return Slot::Found(mid);
                },
                KeyOrder::Before => {
                    proof {
                        assert forall|j: int| 0 <= j < mid + 1 implies key_lt(
                            #[trigger] self.keys()[j],
                            key@,
                        ) by {
                            if j < mid {
                                lemma_key_lt_transitive(self.keys()[j], self.keys()[mid as int], key@);
                            }
                        }
                    }
                    lo = mid + 1;
                },
                KeyOrder::After => {
                    proof {
                        assert forall|j: int| mid <= j < self.keys().len() implies key_lt(
                            key@,
                            #[trigger] self.keys()[j],
                        ) by {
                            if j > mid {
                                lemma_key_lt_transitive(key@, self.keys()[mid as int], self.keys()[j]);
                            }
                        }
                    }
                    hi = mid;
                },
            }
        }
        proof {
            if self.keys().contains(key@) {
                let j = self.keys().index_of(key@);
                lemma_key_lt_irreflexive(key@);
            }
        }
        Slot::Vacant(lo)
    }

    /// Whether `key` has an entry.
    pub fn contains_key(&self, key: &[u8]) -> (found: bool)
        requires
            self.wf(),
        ensures
            found == self@.contains_key(key@),
    {
        match self.slot(key) {
            Slot::Found(_) => true,
            Slot::Vacant(_) => false,
        }
    }

    /// The value stored under `key`, if there is one.
    pub fn get(&self, key: &[u8]) -> (value: Option<&V>)
        requires
            self.wf(),
        ensures
            match value {
                Some(v) => self@.contains_key(key@) && *v == self@[key@],
                None => !self@.contains_key(key@),
            },
    {
        match self.slot(key) {
            Slot::Found(i) => {
                proof {
                    self.lemma_entry_in_view(i as int);
                }
                Some(&self.entries[i].value)
            },
            Slot::Vacant(_) => None,
        }
    }

    /// Stores `value` under `key` and hands back the value that it replaces.
    pub fn insert(&mut self, key: Vec<u8>, value: V) -> (previous: Option<V>)
        requires
            old(self).wf(),
        ensures
            final(self).wf(),
            final(self)@ == old(self)@.insert(key@, value),
            previous == if old(self)@.contains_key(key@) {
                Some(old(self)@[key@])
            } else {
                None::<V>
            },
    {
        let ghost before = *self;
        match self.slot(key.as_slice()) {
            Slot::Found(i) => {
                let mut value = value;
                let ghost stored = value;
                core::mem::swap(&mut self.entries[i].value, &mut value);
                proof {
                    before.lemma_entry_in_view(i as int);
                    assert(self.keys() =~= before.keys());
                    assert(self.values() =~= before.values().update(i as int, stored));
                    assert forall|k: Seq<u8>| self@.contains_key(k) implies #[trigger] self@[k]
                        == before@.insert(key@, stored)[k] by {
                        let j = self.keys().index_of(k);
                        if k == key@ {
                            lemma_sorted_keys_distinct(self.keys(), i as int, j);
                        }
                    }
                    assert(self@ =~= before@.insert(key@, stored));
                }
                Some(value)
            },
            Slot::Vacant(i) => {
                let ghost stored_key = key@;
                self.entries.insert(i, Entry { key, value });
                proof {
                    assert(self.keys() =~= before.keys().insert(i as int, stored_key));
                    assert(self.values() =~= before.values().insert(i as int, value));
                    assert forall|a: int, b: int| 0 <= a < b < self.keys().len() implies key_lt(
                        #[trigger] self.keys()[a],
                        #[trigger] self.keys()[b],
                    ) by {
                        if a < i && b > i {
                            assert(self.keys()[a] == before.keys()[a]);
                            assert(self.keys()[b] == before.keys()[b - 1]);
                        } else if a < i && b < i {
                            assert(self.keys()[a] == before.keys()[a]);
                            assert(self.keys()[b] == before.keys()[b]);
                        } else if a > i {
                            assert(self.keys()[a] == before.keys()[a - 1]);
                            assert(self.keys()[b] == before.keys()[b - 1]);
                        } else if a == i {
                            assert(self.keys()[b] == before.keys()[b - 1]);
                        } else {
                            assert(self.keys()[a] == before.keys()[a]);
                        }
                    }
                    assert forall|k: Seq<u8>| #[trigger]
                        self@.contains_key(k) == before@.insert(stored_key, value).contains_key(
                        k,
                    ) by {
                        if self.keys().contains(k) {
                            let j = self.keys().index_of(k);
                            if j < i {
                                assert(before.keys()[j] == k);
                            } else if j > i {
                                assert(before.keys()[j - 1] == k);
                            }
                        }
                        if before.keys().contains(k) {
                            let j = before.keys().index_of(k);
                            if j < i {
                                assert(self.keys()[j] == k);
                            } else {
                                assert(self.keys()[j + 1] == k);
                            }
                        }
                        if k == stored_key {
                            assert(self.keys()[i as int] == k);
                        }
                    }
                    assert forall|k: Seq<u8>| self@.contains_key(k) implies #[trigger] self@[k]
                        == before@.insert(stored_key, value)[k] by {
                        let j = self.keys().index_of(k);
                        self.lemma_entry_in_view(j);
                        if j < i {
                            before.lemma_entry_in_view(j);
                        } else if j > i {
                            before.lemma_entry_in_view(j - 1);
                        }
                    }
                    assert(self@ =~= before@.insert(stored_key, value));
                }
                None
            },
        }
    }

    /// Takes the entry of `key` out and hands back its value.
    pub fn remove(&mut self, key: &[u8]) -> (previous: Option<V>)
        requires
            old(self).wf(),
        ensures
            final(self).wf(),
            final(self)@ == old(self)@.remove(key@),
            previous == if old(self)@.contains_key(key@) {
                Some(old(self)@[key@])
            } else {
                None::<V>
            },
    {
        let ghost before = *self;
        match self.slot(key) {
            Slot::Found(i) => {
                let entry = self.entries.remove(i);
                proof {
                    before.lemma_entry_in_view(i as int);
                    assert(self.keys() =~= before.keys().remove(i as int));
                    assert(self.values() =~= before.values().remove(i as int));
                    assert forall|a: int, b: int| 0 <= a < b < self.keys().len() implies key_lt(
                        #[trigger] self.keys()[a],
                        #[trigger] self.keys()[b],
                    ) by {
                        let a0 = if a < i { a } else { a + 1 };
                        let b0 = if b < i { b } else { b + 1 };
                        assert(self.keys()[a] == before.keys()[a0]);
                        assert(self.keys()[b] == before.keys()[b0]);
                    }
                    assert forall|k: Seq<u8>| #[trigger]
                        self@.contains_key(k) == before@.remove(key@).contains_key(k) by {
                        if self.keys().contains(k) {
                            let j = self.keys().index_of(k);
                            let j0 = if j < i { j } else { j + 1 };
                            assert(before.keys()[j0] == k);
                            if k == key@ {
                                lemma_sorted_keys_distinct(before.keys(), i as int, j0);
                            }
                        }
                        if before.keys().contains(k) && k != key@ {
                            let j = before.keys().index_of(k);
                            if j < i {
                                assert(self.keys()[j] == k);
                            } else {
                                assert(self.keys()[j - 1] == k);
                            }
                        }
                    }
                    assert forall|k: Seq<u8>| self@.contains_key(k) implies #[trigger] self@[k]
                        == before@.remove(key@)[k] by {
                        let j = self.keys().index_of(k);
                        self.lemma_entry_in_view(j);
                        let j0 = if j < i { j } else { j + 1 };
                        assert(before.keys()[j0] == k);
                        before.lemma_entry_in_view(j0);
                    }
                    assert(self@ =~= before@.remove(key@));
                }
                Some(entry.value)
            },
            Slot::Vacant(_) => {
                proof {
                    assert(self@ =~= before@.remove(key@));
                }
                None
            },
        }
    }
}

} // verus!
