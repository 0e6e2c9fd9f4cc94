//! Posting databases: for each key, the set of documents that hold it.
//!
//! A `Postings` value is one database of the index (word → documents, facet
//! → documents, ...) or one chunk of extracted data on its way into such a
//! database. Its keys are strictly increasing, and a key is stored only
//! while at least one document holds it. Two postings are merged by taking,
//! key by key, the union of the document sets.

use crate::bitmap::{
    bitmap_clone, bitmap_difference_with, bitmap_ids, bitmap_insert, bitmap_is_empty, bitmap_new,
    bitmap_union_with,
};
use crate::bytes::copy_bytes;
use crate::sorted_map::{strictly_sorted, ByteMap, Slot};
use roaring::RoaringBitmap;
use vstd::prelude::*;

verus! {

/// A sorted map from keys to non-empty sets of document ids.
pub struct Postings {
    map: ByteMap<RoaringBitmap>,
}

impl Postings {
    /// The stored keys, in increasing order.
    pub closed spec fn keys(&self) -> Seq<Seq<u8>> {
        self.map.keys()
    }

    /// The stored keys with the documents of each.
    pub closed spec fn view(&self) -> Map<Seq<u8>, Set<u32>> {
        Map::new(
            |key: Seq<u8>| self.map@.contains_key(key),
            |key: Seq<u8>| bitmap_ids(self.map@[key]),
        )
    }

    /// The documents that hold `key`: none where the key is not stored.
    pub open spec fn docids(&self, key: Seq<u8>) -> Set<u32> {
        if self@.contains_key(key) {
            self@[key]
        } else {
            Set::empty()
        }
    }

    /// Keys are strictly increasing and none is stored with an empty set.
    pub closed spec fn wf(&self) -> bool {
        &&& self.map.wf()
        &&& forall|key: Seq<u8>| #[trigger]
            self.map@.contains_key(key) ==> bitmap_ids(self.map@[key]) != Set::<u32>::empty()
    }

    /// What well-formedness means to a reader of the database: the keys are
    /// sorted, they are exactly the keys that the view holds, and a key is
    /// stored if and only if some document holds it.
    pub proof fn lemma_wf(&self)
        requires
            self.wf(),
        ensures
            strictly_sorted(self.keys()),
            forall|key: Seq<u8>| #[trigger] self@.contains_key(key) <==> self.keys().contains(key),
            forall|key: Seq<u8>| #[trigger]
                self@.contains_key(key) <==> self.docids(key) != Set::<u32>::empty(),
    {
    }

    /// Two well-formed postings that give every key the same documents are
    /// the same map.
    pub proof fn lemma_same_docids(&self, other: &Postings)
        requires
            self.wf(),
            other.wf(),
            forall|key: Seq<u8>| #[trigger] self.docids(key) == other.docids(key),
        ensures
            self@ == other@,
    {
        assert forall|key: Seq<u8>| self@.contains_key(key) == other@.contains_key(key) by {
            assert(self.docids(key) == other.docids(key));
        }
        assert forall|key: Seq<u8>| self@.contains_key(key) implies self@[key] == other@[key] by {
            assert(self.docids(key) == other.docids(key));
        }
        assert(self@ =~= other@);
    }

    /// The documents of `key` as far as the first `upto` stored keys go.
    pub open spec fn docids_upto(&self, upto: int, key: Seq<u8>) -> Set<u32> {
        if exists|j: int| 0 <= j < upto && j < self.keys().len() && self.keys()[j] == key {
            self.docids(key)
        } else {
            Set::empty()
        }
    }

    /// Taken over all stored keys, `docids_upto` is `docids`.
    pub proof fn lemma_docids_upto_all(&self, key: Seq<u8>)
        requires
            self.wf(),
        ensures
            self.docids_upto(self.keys().len() as int, key) == self.docids(key),
    {
        if self@.contains_key(key) {
            let j = self.keys().index_of(key);
            assert(0 <= j < self.keys().len() && self.keys()[j] == key);
        }
    }

    /// An empty database.
    pub fn new() -> (postings: Self)
        ensures
            postings.wf(),
            postings@ == Map::<Seq<u8>, Set<u32>>::empty(),
            postings.keys().len() == 0,
            forall|key: Seq<u8>| #[trigger] postings.docids(key) == Set::<u32>::empty(),
    {
        let postings = Postings { map: ByteMap::new() };
        proof {
            assert(postings@ =~= Map::<Seq<u8>, Set<u32>>::empty());
        }
        postings
    }

    /// The number of stored keys.
    pub fn len(&self) -> (count: usize)
        ensures
            count == self.keys().len(),
    {
        self.map.len()
    }

    /// Whether no key is stored.
    pub fn is_empty(&self) -> (empty: bool)
        requires
            self.wf(),
        ensures
            empty == (self.keys().len() == 0),
            empty == (self@ == Map::<Seq<u8>, Set<u32>>::empty()),
    {
        let empty = self.map.len() == 0;
        proof {
            if empty {
                assert(self@ =~= Map::<Seq<u8>, Set<u32>>::empty());
            } else {
                self.map.lemma_entry_in_view(0);
                assert(self@.contains_key(self.keys()[0]));
            }
        }
        empty
    }

    /// The `i`-th key in increasing order.
    pub fn key_at(&self, i: usize) -> (key: &Vec<u8>)
        requires
            self.wf(),
            i < self.keys().len(),
        ensures
            key@ == self.keys()[i as int],
            self@.contains_key(key@),
    {
        proof {
            self.map.lemma_entry_in_view(i as int);
        }
        self.map.key_at(i)
    }

    /// The documents of the `i`-th key.
    pub fn docids_at(&self, i: usize) -> (docids: &RoaringBitmap)
        requires
            self.wf(),
            i < self.keys().len(),
        ensures
            bitmap_ids(*docids) == self.docids(self.keys()[i as int]),
            bitmap_ids(*docids) != Set::<u32>::empty(),
    {
        proof {
            self.map.lemma_entry_in_view(i as int);
        }
        self.map.value_at(i)
    }

    /// The position from which on the stored keys are not below `key`.
    pub fn lower_bound(&self, key: &[u8]) -> (at: usize)
        requires
            self.wf(),
        ensures
            at <= self.keys().len(),
            forall|k: int| 0 <= k < at ==> crate::bytes::key_lt(#[trigger] self.keys()[k], key@),
            forall|k: int|
                at <= k < self.keys().len() ==> crate::bytes::key_le(key@, #[trigger] self.keys()[k]),
    {
        match self.map.slot(key) {
            Slot::Found(at) => {
                proof {
                    crate::bytes::lemma_key_lt_irreflexive(key@);
                    assert forall|k: int| at <= k < self.keys().len() implies crate::bytes::key_le(
                        key@,
                        #[trigger] self.keys()[k],
                    ) by {
                        if k > at {
                            assert(crate::bytes::key_lt(self.keys()[at as int], self.keys()[k]));
                            crate::bytes::lemma_key_lt_asymmetric(
                                self.keys()[at as int],
                                self.keys()[k],
                            );
                        }
                    }
                }
                at
            },
            Slot::Vacant(at) => {
                proof {
                    assert forall|k: int| at <= k < self.keys().len() implies crate::bytes::key_le(
                        key@,
                        #[trigger] self.keys()[k],
                    ) by {
                        crate::bytes::lemma_key_lt_asymmetric(key@, self.keys()[k]);
                    }
                }
                at
            },
        }
    }

    /// The documents stored under `key`, if the key is stored.
    pub fn get(&self, key: &[u8]) -> (docids: Option<&RoaringBitmap>)
        requires
            self.wf(),
        ensures
            match docids {
                Some(found) => self@.contains_key(key@) && bitmap_ids(*found) == self.docids(key@),
                None => !self@.contains_key(key@) && self.docids(key@) == Set::<u32>::empty(),
            },
    {
        self.map.get(key)
    }

    /// Adds the documents of `docids` to those of `key`.
    pub fn merge_entry(&mut self, key: &[u8], docids: &RoaringBitmap)
        requires
            old(self).wf(),
        ensures
            final(self).wf(),
            final(self).docids(key@) == old(self).docids(key@).union(bitmap_ids(*docids)),
            forall|other: Seq<u8>| other != key@
                ==> #[trigger] final(self).docids(other) == old(self).docids(other),
    {
        if bitmap_is_empty(docids) {
            proof {
                assert(self.docids(key@).union(bitmap_ids(*docids)) =~= self.docids(key@));
            }
            return;
        }
        let ghost before = *self;
        match self.map.slot(key) {
            Slot::Found(i) => {
                let mut merged = bitmap_new();
                self.map.swap_value_at(i, &mut merged);
                bitmap_union_with(&mut merged, docids);
                let ghost stored = merged;
                let mut spare = merged;
                self.map.swap_value_at(i, &mut spare);
                proof {
                    before.map.lemma_entry_in_view(i as int);
                    assert(self.map.values() =~= before.map.values().update(i as int, stored));
                    assert forall|k: Seq<u8>| #[trigger] self.map@.contains_key(k) implies bitmap_ids(
                        self.map@[k],
                    ) != Set::<u32>::empty() && (k != key@ ==> self.map@[k] == before.map@[k]) && (k
                        == key@ ==> self.map@[k] == stored) by {
                        let j = self.map.keys().index_of(k);
                        self.map.lemma_entry_in_view(j);
                        before.map.lemma_entry_in_view(j);
                        assert(before.map@.contains_key(k));
                        if j == i {
                            if bitmap_ids(stored) == Set::<u32>::empty() {
                                assert(bitmap_ids(*docids) =~= Set::<u32>::empty());
                            }
                        }
                    }
                    assert(self.map@.contains_key(key@));
                }
            },
            Slot::Vacant(_) => {
                let stored = bitmap_clone(docids);
                let _ = self.map.insert(copy_bytes(key), stored);
                proof {
                    assert(Set::<u32>::empty().union(bitmap_ids(*docids)) =~= bitmap_ids(*docids));
                }
            },
        }
    }

    /// Stores `docids` under `key` in place of what was there.
    pub fn put(&mut self, key: &[u8], docids: RoaringBitmap)
        requires
            old(self).wf(),
        ensures
            final(self).wf(),
            final(self).docids(key@) == bitmap_ids(docids),
            forall|other: Seq<u8>| other != key@
                ==> #[trigger] final(self).docids(other) == old(self).docids(other),
    {
        if bitmap_is_empty(&docids) {
            let _ = self.map.remove(key);
        } else {
            let _ = self.map.insert(copy_bytes(key), docids);
        }
    }

    /// Takes `key` out of the database and tells whether it was stored.
    pub fn delete(&mut self, key: &[u8]) -> (stored: bool)
        requires
            old(self).wf(),
        ensures
            final(self).wf(),
            stored == old(self)@.contains_key(key@),
            final(self).docids(key@) == Set::<u32>::empty(),
            forall|other: Seq<u8>| other != key@
                ==> #[trigger] final(self).docids(other) == old(self).docids(other),
    {
        match self.map.remove(key) {
            Some(_) => true,
            None => false,
        }
    }

    /// Records that document `docid` holds `key`.
    pub fn add_document(&mut self, key: &[u8], docid: u32)
        requires
            old(self).wf(),
        ensures
            final(self).wf(),
            final(self).docids(key@) == old(self).docids(key@).insert(docid),
            forall|other: Seq<u8>| other != key@
                ==> #[trigger] final(self).docids(other) == old(self).docids(other),
    {
        let mut single = bitmap_new();
        let _ = bitmap_insert(&mut single, docid);
        self.merge_entry(key, &single);
        proof {
            assert(old(self).docids(key@).union(bitmap_ids(single)) =~= old(self).docids(
                key@,
            ).insert(docid));
        }
    }

    /// Merges a chunk into the database: every key of the chunk is inserted,
    /// or, where the database has it already, its documents are added.
    ///
    /// Both are sorted: they are read side by side, and the merged
    /// database is written key after key.
    pub fn merge(&mut self, chunk: &Postings)
        requires
            old(self).wf(),
            chunk.wf(),
        ensures
            final(self).wf(),
            forall|key: Seq<u8>| #[trigger]
                final(self).docids(key) == old(self).docids(key).union(chunk.docids(key)),
    {
        if chunk.len() == 0 {
            proof {
                chunk.lemma_wf();
                assert forall|key: Seq<u8>| #[trigger]
                    self.docids(key) == self.docids(key).union(chunk.docids(key)) by {
                    assert(!chunk.keys().contains(key));
                    assert(self.docids(key).union(Set::<u32>::empty()) =~= self.docids(key));
                }
            }
            return;
        }
        let ghost before = *self;
        let ghost count = before.keys().len() as int;
        let mut taken: ByteMap<RoaringBitmap> = ByteMap::new();
        core::mem::swap(&mut self.map, &mut taken);
        let mut mine = taken.into_reversed_entries();
        let mut merged = Postings::new();
        let mut j: usize = 0;
        proof {
            before.lemma_wf();
            chunk.lemma_wf();
            assert forall|key: Seq<u8>| #[trigger]
                merged.docids(key) == before.docids_upto(0, key).union(chunk.docids_upto(0, key)) by {
                assert(Set::<u32>::empty().union(Set::<u32>::empty()) =~= Set::<u32>::empty());
            }
        }
        while mine.len() > 0 || j < chunk.len()
            invariant
                before.wf(),
                chunk.wf(),
                merged.wf(),
                count == before.keys().len(),
                mine@.len() <= count,
                j <= chunk.keys().len(),
                strictly_sorted(before.keys()),
                strictly_sorted(chunk.keys()),
                forall|k: int|
                    0 <= k < mine@.len() ==> (#[trigger] mine@[k]).key@ == before.keys()[count - 1
                        - k] && bitmap_ids(mine@[k].value) == before.docids(
                        before.keys()[count - 1 - k],
                    ) && bitmap_ids(mine@[k].value) != Set::<u32>::empty(),
                merged.keys().len() > 0 && mine@.len() > 0 ==> crate::bytes::key_lt(
                    merged.keys().last(),
                    before.keys()[count - mine@.len()],
                ),
                merged.keys().len() > 0 && j < chunk.keys().len() ==> crate::bytes::key_lt(
                    merged.keys().last(),
                    chunk.keys()[j as int],
                ),
                forall|a: int, b: int|
                    0 <= a < j && count - mine@.len() <= b < count ==> crate::bytes::key_lt(
                        #[trigger] chunk.keys()[a],
                        #[trigger] before.keys()[b],
                    ),
                forall|a: int, b: int|
                    0 <= a < count - mine@.len() && j <= b < chunk.keys().len()
                        ==> crate::bytes::key_lt(
                        #[trigger] before.keys()[a],
                        #[trigger] chunk.keys()[b],
                    ),
                forall|key: Seq<u8>| #[trigger]
                    merged.docids(key) == before.docids_upto(count - mine@.len(), key).union(
                        chunk.docids_upto(j as int, key),
                    ),
            decreases mine@.len() + chunk.keys().len() - j,
        {
            let ghost i = count - mine@.len();
            let ghost earlier = merged;
            let order = if mine.len() == 0 {
                crate::bytes::KeyOrder::After
            } else if j == chunk.len() {
                crate::bytes::KeyOrder::Before
            } else {
                crate::bytes::compare_keys(
                    mine[mine.len() - 1].key.as_slice(),
                    chunk.key_at(j).as_slice(),
                )
            };
            let from_mine = !matches!(order, crate::bytes::KeyOrder::After);
            let from_chunk = !matches!(order, crate::bytes::KeyOrder::Before);
            let ghost key = if from_mine {
                before.keys()[i]
            } else {
                chunk.keys()[j as int]
            };
            let ghost added = (if from_mine {
                before.docids(key)
            } else {
                Set::<u32>::empty()
            }).union(
                if from_chunk {
                    chunk.docids(key)
                } else {
                    Set::<u32>::empty()
                },
            );
            proof {
                if from_mine {
                    assert(mine@[mine@.len() - 1].key@ == before.keys()[i]);
                }
            }
            if from_mine {
                let mut entry = mine.pop().unwrap();
                if from_chunk {
                    bitmap_union_with(&mut entry.value, chunk.docids_at(j));
                }
                proof {
                    assert(bitmap_ids(entry.value) =~= added);
                    if bitmap_ids(entry.value) == Set::<u32>::empty() {
                        assert(before.docids(key) =~= Set::<u32>::empty());
                    }
                }
                merged.push_last(entry.key, entry.value);
            } else {
                proof {
                    assert(added =~= chunk.docids(key));
                }
                merged.push_last(
                    copy_bytes(chunk.key_at(j).as_slice()),
                    bitmap_clone(chunk.docids_at(j)),
                );
            }
            proof {
                let next_i = if from_mine {
                    i + 1
                } else {
                    i
                };
                let next_j = if from_chunk {
                    j + 1
                } else {
                    j as int
                };
                assert(merged.keys().last() == key);
                if next_i < count {
                    if from_mine {
                        assert(crate::bytes::key_lt(before.keys()[i], before.keys()[next_i]));
                    }
                }
                if next_j < chunk.keys().len() {
                    if from_chunk {
                        assert(crate::bytes::key_lt(chunk.keys()[j as int], chunk.keys()[next_j]));
                    }
                }
                assert forall|a: int, b: int| 0 <= a < next_j && next_i <= b < count
                    implies crate::bytes::key_lt(
                    #[trigger] chunk.keys()[a],
                    #[trigger] before.keys()[b],
                ) by {
                    if a == j {
                        if from_mine {
                            if b > i {
                                assert(crate::bytes::key_lt(before.keys()[i], before.keys()[b]));
                            }
                        } else {
                            assert(crate::bytes::key_lt(chunk.keys()[j as int], before.keys()[i]));
                            if b > i {
                                assert(crate::bytes::key_lt(before.keys()[i], before.keys()[b]));
                                crate::bytes::lemma_key_lt_transitive(
                                    chunk.keys()[a],
                                    before.keys()[i],
                                    before.keys()[b],
                                );
                            }
                        }
                    }
                }
                assert forall|a: int, b: int| 0 <= a < next_i && next_j <= b < chunk.keys().len()
                    implies crate::bytes::key_lt(
                    #[trigger] before.keys()[a],
                    #[trigger] chunk.keys()[b],
                ) by {
                    if a == i {
                        if from_chunk {
                            if b > j {
                                assert(crate::bytes::key_lt(chunk.keys()[j as int], chunk.keys()[b]));
                            }
                        } else {
                            assert(crate::bytes::key_lt(before.keys()[i], chunk.keys()[j as int]));
                            if b > j {
                                assert(crate::bytes::key_lt(chunk.keys()[j as int], chunk.keys()[b]));
                                crate::bytes::lemma_key_lt_transitive(
                                    before.keys()[a],
                                    chunk.keys()[j as int],
                                    chunk.keys()[b],
                                );
                            }
                        }
                    }
                }
                assert forall|k: int| 0 <= k < mine@.len() implies (#[trigger] mine@[k]).key@
                    == before.keys()[count - 1 - k] && bitmap_ids(mine@[k].value) == before.docids(
                    before.keys()[count - 1 - k],
                ) && bitmap_ids(mine@[k].value) != Set::<u32>::empty() by {}
                assert forall|other: Seq<u8>| #[trigger]
                    merged.docids(other) == before.docids_upto(next_i, other).union(
                        chunk.docids_upto(next_j, other),
                    ) by {
                    assert(earlier.docids(other) == before.docids_upto(i, other).union(
                        chunk.docids_upto(j as int, other),
                    ));
                    if other == key {
                        // The key was not met before, on either side.
                        if exists|a: int| 0 <= a < i && a < before.keys().len()
                            && before.keys()[a] == other {
                            let a = choose|a: int|
                                0 <= a < i && a < before.keys().len() && before.keys()[a] == other;
                            if from_mine {
                                crate::sorted_map::lemma_sorted_keys_distinct(before.keys(), a, i);
                            } else {
                                crate::bytes::lemma_key_lt_irreflexive(other);
                            }
                        }
                        if exists|a: int|
                            0 <= a < j && a < chunk.keys().len() && chunk.keys()[a] == other {
                            let a = choose|a: int|
                                0 <= a < j && a < chunk.keys().len() && chunk.keys()[a] == other;
                            if from_mine {
                                crate::bytes::lemma_key_lt_irreflexive(other);
                            } else {
                                crate::sorted_map::lemma_sorted_keys_distinct(
                                    chunk.keys(),
                                    a,
                                    j as int,
                                );
                            }
                        }
                        assert(before.docids_upto(i, other) == Set::<u32>::empty());
                        assert(chunk.docids_upto(j as int, other) == Set::<u32>::empty());
                        if from_mine {
                            assert(0 <= i < next_i && before.keys()[i] == other);
                            assert(before.docids_upto(next_i, other) == before.docids(other));
                        } else {
                            // The database does not hold a key of the chunk that is
                            // taken alone: it stands below what is left of the database.
                            if exists|a: int|
                                0 <= a < next_i && a < before.keys().len() && before.keys()[a]
                                    == other {
                                let a = choose|a: int|
                                    0 <= a < next_i && a < before.keys().len() && before.keys()[a]
                                        == other;
                                crate::bytes::lemma_key_lt_irreflexive(other);
                            }
                            assert(before.docids_upto(next_i, other) == Set::<u32>::empty());
                        }
                        if from_chunk {
                            assert(0 <= j < next_j && chunk.keys()[j as int] == other);
                            assert(chunk.docids_upto(next_j, other) == chunk.docids(other));
                        } else {
                            if exists|a: int|
                                0 <= a < next_j && a < chunk.keys().len() && chunk.keys()[a] == other {
                                let a = choose|a: int|
                                    0 <= a < next_j && a < chunk.keys().len() && chunk.keys()[a]
                                        == other;
                                crate::bytes::lemma_key_lt_irreflexive(other);
                            }
                            assert(chunk.docids_upto(next_j, other) == Set::<u32>::empty());
                        }
                    } else {
                        if exists|a: int|
                            0 <= a < next_i && a < before.keys().len() && before.keys()[a] == other {
                            let a = choose|a: int|
                                0 <= a < next_i && a < before.keys().len() && before.keys()[a]
                                    == other;
                            assert(0 <= a < i && a < before.keys().len() && before.keys()[a] == other);
                        }
                        if exists|a: int|
                            0 <= a < next_j && a < chunk.keys().len() && chunk.keys()[a] == other {
                            let a = choose|a: int|
                                0 <= a < next_j && a < chunk.keys().len() && chunk.keys()[a] == other;
                            assert(0 <= a < j && a < chunk.keys().len() && chunk.keys()[a] == other);
                        }
                        assert(before.docids_upto(next_i, other) == before.docids_upto(i, other));
                        assert(chunk.docids_upto(next_j, other) == chunk.docids_upto(
                            j as int,
                            other,
                        ));
                    }
                }
            }
            if from_chunk {
                j += 1;
            }
        }
        proof {
            assert forall|key: Seq<u8>| #[trigger]
                merged.docids(key) == before.docids(key).union(chunk.docids(key)) by {
                before.lemma_docids_upto_all(key);
                chunk.lemma_docids_upto_all(key);
                assert(merged.docids(key) == before.docids_upto(count - mine@.len(), key).union(
                    chunk.docids_upto(j as int, key),
                ));
            }
        }
        *self = merged;
    }

    /// Appends a key that is greater than every key of the database, with
    /// its documents.
    fn push_last(&mut self, key: Vec<u8>, docids: RoaringBitmap)
        requires
            old(self).wf(),
            bitmap_ids(docids) != Set::<u32>::empty(),
            old(self).keys().len() > 0 ==> crate::bytes::key_lt(old(self).keys().last(), key@),
        ensures
            final(self).wf(),
            final(self).keys() == old(self).keys().push(key@),
            final(self).docids(key@) == bitmap_ids(docids),
            forall|other: Seq<u8>| other != key@
                ==> #[trigger] final(self).docids(other) == old(self).docids(other),
    {
        self.map.push_last(key, docids);
    }

    /// A copy of the database.
    pub fn copy(&self) -> (copy: Self)
        requires
            self.wf(),
        ensures
            copy.wf(),
            copy@ == self@,
            forall|key: Seq<u8>| #[trigger] copy.docids(key) == self.docids(key),
    {
        let mut copy = Postings::new();
        copy.merge(self);
        proof {
            assert forall|key: Seq<u8>| #[trigger] copy.docids(key) == self.docids(key) by {
                assert(Set::<u32>::empty().union(self.docids(key)) =~= self.docids(key));
            }
            copy.lemma_same_docids(self);
        }
        copy
    }

    /// Takes the documents of `removed` out of every key; a key that no
    /// document holds any more leaves the database.
    pub fn remove_documents(&mut self, removed: &RoaringBitmap)
        requires
            old(self).wf(),
        ensures
            final(self).wf(),
            forall|key: Seq<u8>| #[trigger]
                final(self).docids(key) == old(self).docids(key).difference(bitmap_ids(*removed)),
    {
        let mut kept = Postings::new();
        let mut i: usize = 0;
        proof {
            assert forall|key: Seq<u8>| #[trigger]
                kept.docids(key) == self.docids_upto(0, key).difference(bitmap_ids(*removed)) by {
                assert(Set::<u32>::empty().difference(bitmap_ids(*removed)) =~= Set::<u32>::empty());
            }
        }
        while i < self.len()
            invariant
                self.wf(),
                kept.wf(),
                self == old(self),
                i <= self.keys().len(),
                forall|key: Seq<u8>| #[trigger]
                    kept.docids(key) == self.docids_upto(i as int, key).difference(
                        bitmap_ids(*removed),
                    ),
            decreases self.keys().len() - i,
        {
            let ghost before = kept;
            let key = self.key_at(i);
            let mut docids = bitmap_clone(self.docids_at(i));
            bitmap_difference_with(&mut docids, removed);
            kept.merge_entry(key.as_slice(), &docids);
            proof {
                self.lemma_wf();
                assert forall|k: Seq<u8>| #[trigger]
                    kept.docids(k) == self.docids_upto(i + 1, k).difference(
                        bitmap_ids(*removed),
                    ) by {
                    assert(before.docids(k) == self.docids_upto(i as int, k).difference(
                        bitmap_ids(*removed),
                    ));
                    if k == key@ {
                        assert(self.keys()[i as int] == k);
                        if exists|j: int| 0 <= j < i && j < self.keys().len() && self.keys()[j] == k {
                            let j = choose|j: int|
                                0 <= j < i && j < self.keys().len() && self.keys()[j] == k;
                            crate::sorted_map::lemma_sorted_keys_distinct(self.keys(), j, i as int);
                        }
                        assert(self.docids_upto(i as int, k) == Set::<u32>::empty());
                        assert(self.docids_upto(i + 1, k) == self.docids(k));
                        assert(Set::<u32>::empty().difference(bitmap_ids(*removed)).union(
                            bitmap_ids(docids),
                        ) =~= self.docids(k).difference(bitmap_ids(*removed)));
                    } else {
                        if exists|j: int|
                            0 <= j < i + 1 && j < self.keys().len() && self.keys()[j] == k {
                            let j = choose|j: int|
                                0 <= j < i + 1 && j < self.keys().len() && self.keys()[j] == k;
                            assert(0 <= j < i && j < self.keys().len() && self.keys()[j] == k);
                        }
                        assert(self.docids_upto(i + 1, k) == self.docids_upto(i as int, k));
                    }
                }
            }
            i += 1;
        }
        proof {
            assert forall|key: Seq<u8>| #[trigger]
                kept.docids(key) == self.docids(key).difference(bitmap_ids(*removed)) by {
                self.lemma_docids_upto_all(key);
                assert(kept.docids(key) == self.docids_upto(i as int, key).difference(
                    bitmap_ids(*removed),
                ));
            }
        }
        *self = kept;
    }
}

} // verus!
