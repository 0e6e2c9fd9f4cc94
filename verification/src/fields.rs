//! The field catalogue: which small integer stands for which field name.

use crate::bytes::copy_bytes;
use crate::documents::FieldId;
use crate::sorted_map::ByteMap;
use vstd::prelude::*;

verus! {

/// The greatest number of fields that a catalogue can hold: one for each
/// field id.
pub const MAX_FIELDS: usize = 65536;

/// A bijection between field names and field ids.
///
/// Ids are given out in the order in which names arrive and are never
/// reused or renumbered: the id of a name is its position in the view.
pub struct FieldsIdsMap {
    names: Vec<Vec<u8>>,
    ids: ByteMap<FieldId>,
}

impl FieldsIdsMap {
    /// The field names, each at the position that is its id.
    pub closed spec fn view(&self) -> Seq<Seq<u8>> {
        Seq::new(self.names@.len(), |i: int| self.names@[i]@)
    }

    /// No name occurs twice, and there are no more names than ids.
    pub closed spec fn wf(&self) -> bool {
        &&& self.ids.wf()
        &&& self.names@.len() <= MAX_FIELDS
        &&& forall|name: Seq<u8>| #[trigger] self.ids@.contains_key(name) <==> self@.contains(name)
        &&& forall|i: int| 0 <= i < self@.len() ==> self.ids@[#[trigger] self@[i]] == i
    }

    /// What well-formedness means to a reader: names are distinct and fit
    /// the range of field ids.
    pub proof fn lemma_wf(&self)
        requires
            self.wf(),
        ensures
            self@.len() <= MAX_FIELDS,
            forall|i: int, j: int| 0 <= i < j < self@.len() ==> self@[i] != self@[j],
    {
        assert forall|i: int, j: int| 0 <= i < j < self@.len() implies self@[i] != self@[j] by {
            assert(self.ids@[self@[i]] == i);
            assert(self.ids@[self@[j]] == j);
        }
    }

    /// An empty catalogue.
    pub fn new() -> (map: Self)
        ensures
            map.wf(),
            map@ == Seq::<Seq<u8>>::empty(),
    {
        let map = FieldsIdsMap { names: Vec::new(), ids: ByteMap::new() };
        proof {
            assert(map@ =~= Seq::<Seq<u8>>::empty());
        }
        map
    }

    /// The number of fields.
    pub fn len(&self) -> (count: usize)
        ensures
            count == self@.len(),
    {
        self.names.len()
    }

    /// The id of `name`, if the catalogue has that name.
    pub fn id(&self, name: &[u8]) -> (id: Option<FieldId>)
        requires
            self.wf(),
        ensures
            match id {
                Some(found) => found < self@.len() && self@[found as int] == name@,
                None => !self@.contains(name@),
            },
    {
        match self.ids.get(name) {
            Some(found) => {
                proof {
                    let i = self@.index_of(name@);
                    assert(self.ids@[self@[i]] == i);
                }
                Some(*found)
            },
            None => None,
        }
    }

    /// The name of field `id`, if the catalogue has that id.
    pub fn name(&self, id: FieldId) -> (name: Option<&Vec<u8>>)
        ensures
            match name {
                Some(found) => id < self@.len() && found@ == self@[id as int],
                None => id >= self@.len(),
            },
    {
        if (id as usize) < self.names.len() {
            Some(&self.names[id as usize])
        } else {
            None
        }
    }

    /// The id of `name`, which is added to the catalogue if it is new. No
    /// id is given when the catalogue is full and the name is new.
    pub fn insert(&mut self, name: &[u8]) -> (id: Option<FieldId>)
        requires
            old(self).wf(),
        ensures
            final(self).wf(),
            old(self)@.contains(name@) ==> final(self)@ == old(self)@ && id == Some(
                old(self)@.index_of(name@) as FieldId,
            ),
            !old(self)@.contains(name@) && old(self)@.len() < MAX_FIELDS
                ==> final(self)@ == old(self)@.push(name@) && id == Some(old(self)@.len() as FieldId),
            !old(self)@.contains(name@) && old(self)@.len() >= MAX_FIELDS
                ==> final(self)@ == old(self)@ && id.is_none(),
    {
        match self.id(name) {
            Some(found) => {
                proof {
                    self.lemma_wf();
                    let i = self@.index_of(name@);
                    if i != found as int {
                        if i < found as int {
                            assert(self@[i] != self@[found as int]);
                        } else {
                            assert(self@[found as int] != self@[i]);
                        }
                    }
                }
                Some(found)
            },
            None => {
                if self.names.len() >= MAX_FIELDS {
                    return None;
                }
                let ghost before = *self;
                let id = self.names.len() as FieldId;
                self.names.push(copy_bytes(name));
                let _ = self.ids.insert(copy_bytes(name), id);
                proof {
                    assert(self@ =~= before@.push(name@));
                    assert forall|other: Seq<u8>| #[trigger]
                        self.ids@.contains_key(other) <==> self@.contains(other) by {
                        if before@.contains(other) {
                            let i = before@.index_of(other);
                            assert(self@[i] == other);
                        }
                        if other == name@ {
                            assert(self@[before@.len() as int] == other);
                        }
                        if self@.contains(other) {
                            let i = self@.index_of(other);
                            if i < before@.len() {
                                assert(before@[i] == other);
                            }
                        }
                    }
                    assert forall|i: int| 0 <= i < self@.len() implies self.ids@[#[trigger] self@[i]]
                        == i by {
                        if i < before@.len() {
                            assert(before@[i] == self@[i]);
                            assert(before@.contains(self@[i]));
                        }
                    }
                }
                Some(id)
            },
        }
    }

    /// A copy of the catalogue.
    pub fn copy(&self) -> (copy: Self)
        requires
            self.wf(),
        ensures
            copy.wf(),
            copy@ == self@,
    {
        let mut copy = FieldsIdsMap::new();
        let mut i: usize = 0;
        proof {
            self.lemma_wf();
        }
        while i < self.names.len()
            invariant
                self.wf(),
                copy.wf(),
                i <= self.names@.len(),
                self@.len() == self.names@.len(),
                self@.len() <= MAX_FIELDS,
                forall|a: int, b: int| 0 <= a < b < self@.len() ==> self@[a] != self@[b],
                copy@ == self@.subrange(0, i as int),
            decreases self.names@.len() - i,
        {
            let ghost before = copy@;
            proof {
                if before.contains(self@[i as int]) {
                    let j = before.index_of(self@[i as int]);
                    assert(self@[j] == self@[i as int]);
                }
            }
            let _ = copy.insert(self.names[i].as_slice());
            proof {
                assert(copy@ =~= self@.subrange(0, i + 1));
            }
            i += 1;
        }
        proof {
            assert(self@.subrange(0, i as int) =~= self@);
        }
        copy
    }
}

} // verus!
