//! Documents as they are stored: an ordered mapping from field ids to
//! serialized values.
//!
//! A field id is written as two bytes, the high one first, so that the byte
//! order of the keys is the numeric order of the ids.

use crate::bytes::copy_bytes;
use crate::sorted_map::ByteMap;
use vstd::prelude::*;

verus! {

/// The small integer that stands for a field name.
pub type FieldId = u16;

/// The internal identifier of a stored document.
pub type DocumentId = u32;

/// The two bytes that stand for a field id in a key.
pub open spec fn field_key(id: FieldId) -> Seq<u8> {
    seq![(id / 256) as u8, (id % 256) as u8]
}

/// Different field ids have different keys.
pub proof fn lemma_field_key_injective(a: FieldId, b: FieldId)
    requires
        field_key(a) == field_key(b),
    ensures
        a == b,
{
    assert(field_key(a)[0] == field_key(b)[0]);
    assert(field_key(a)[1] == field_key(b)[1]);
}

/// Writes a field id as a key.
pub fn encode_field_id(id: FieldId) -> (key: Vec<u8>)
    ensures
        key@ == field_key(id),
{
    let mut key: Vec<u8> = Vec::new();
    key.push((id / 256) as u8);
    key.push((id % 256) as u8);
    proof {
        assert(key@ =~= field_key(id));
    }
    key
}

/// Reads a field id back from its key.
pub fn decode_field_id(key: &[u8]) -> (id: FieldId)
    requires
        key@.len() == 2,
    ensures
        field_key(id) == key@,
{
    let high: u16 = key[0] as u16;
    let low: u16 = key[1] as u16;
    let id: u16 = high * 256 + low;
    proof {
        assert(field_key(id) =~= key@);
    }
    id
}

/// A stored document.
pub struct Document {
    fields: ByteMap<Vec<u8>>,
}

impl Document {
    /// The field ids of the document, in increasing order.
    pub closed spec fn field_ids(&self) -> Seq<FieldId> {
        Seq::new(
            self.fields.keys().len(),
            |i: int| choose|id: FieldId| field_key(id) == self.fields.keys()[i],
        )
    }

    /// The document as a map from field ids to serialized values.
    pub closed spec fn view(&self) -> Map<FieldId, Seq<u8>> {
        Map::new(
            |id: FieldId| self.fields@.contains_key(field_key(id)),
            |id: FieldId| self.fields@[field_key(id)]@,
        )
    }

    /// Every key is the key of a field id, and the keys are sorted.
    pub closed spec fn wf(&self) -> bool {
        &&& self.fields.wf()
        &&& forall|i: int|
            0 <= i < self.fields.keys().len() ==> exists|id: FieldId|
                field_key(id) == #[trigger] self.fields.keys()[i]
    }

    /// The listed field ids are exactly the fields of the document, each
    /// listed once.
    pub proof fn lemma_field_ids(&self)
        requires
            self.wf(),
        ensures
            forall|id: FieldId| #[trigger] self@.contains_key(id) <==> self.field_ids().contains(id),
            forall|i: int, j: int|
                0 <= i < j < self.field_ids().len() ==> self.field_ids()[i] != self.field_ids()[j],
    {
        assert forall|id: FieldId| #[trigger]
            self@.contains_key(id) <==> self.field_ids().contains(id) by {
            if self@.contains_key(id) {
                let i = self.fields.keys().index_of(field_key(id));
                let chosen = self.field_ids()[i];
                lemma_field_key_injective(chosen, id);
            }
            if self.field_ids().contains(id) {
                let i = self.field_ids().index_of(id);
                assert(field_key(id) == self.fields.keys()[i]);
            }
        }
        assert forall|i: int, j: int| 0 <= i < j < self.field_ids().len() implies self.field_ids()[i]
            != self.field_ids()[j] by {
            if self.field_ids()[i] == self.field_ids()[j] {
                assert(self.fields.keys()[i] == self.fields.keys()[j]);
                crate::sorted_map::lemma_sorted_keys_distinct(self.fields.keys(), i, j);
            }
        }
    }

    /// A document without fields.
    pub fn new() -> (document: Self)
        ensures
            document.wf(),
            document@ == Map::<FieldId, Seq<u8>>::empty(),
    {
        let document = Document { fields: ByteMap::new() };
        proof {
            assert(document@ =~= Map::<FieldId, Seq<u8>>::empty());
        }
        document
    }

    /// The number of fields.
    pub fn len(&self) -> (count: usize)
        ensures
            count == self.field_ids().len(),
    {
        self.fields.len()
    }

    /// The id of the `i`-th field.
    pub fn field_id_at(&self, i: usize) -> (id: FieldId)
        requires
            self.wf(),
            i < self.field_ids().len(),
        ensures
            id == self.field_ids()[i as int],
            self@.contains_key(id),
    {
        let key = self.fields.key_at(i);
        proof {
            self.fields.lemma_entry_in_view(i as int);
            let chosen = self.field_ids()[i as int];
            assert(field_key(chosen) == key@);
            assert(key@.len() == 2);
        }
        let id = decode_field_id(key.as_slice());
        proof {
            lemma_field_key_injective(id, self.field_ids()[i as int]);
        }
        id
    }

    /// The value of the `i`-th field.
    pub fn value_at(&self, i: usize) -> (value: &Vec<u8>)
        requires
            self.wf(),
            i < self.field_ids().len(),
        ensures
            self@.contains_key(self.field_ids()[i as int]),
            value@ == self@[self.field_ids()[i as int]],
    {
        proof {
            self.fields.lemma_entry_in_view(i as int);
            let chosen = self.field_ids()[i as int];
            assert(field_key(chosen) == self.fields.keys()[i as int]);
        }
        self.fields.value_at(i)
    }

    /// The value of field `id`, if the document has that field.
    pub fn get(&self, id: FieldId) -> (value: Option<&Vec<u8>>)
        requires
            self.wf(),
        ensures
            match value {
                Some(found) => self@.contains_key(id) && found@ == self@[id],
                None => !self@.contains_key(id),
            },
    {
        let key = encode_field_id(id);
        self.fields.get(key.as_slice())
    }

    /// Sets field `id` to `value`, in place of an earlier value if there is
    /// one.
    pub fn insert(&mut self, id: FieldId, value: Vec<u8>)
        requires
            old(self).wf(),
        ensures
            final(self).wf(),
            final(self)@ == old(self)@.insert(id, value@),
    {
        let ghost before = *self;
        let key = encode_field_id(id);
        let _ = self.fields.insert(key, value);
        proof {
            assert forall|i: int| 0 <= i < self.fields.keys().len() implies exists|other: FieldId|
                field_key(other) == #[trigger] self.fields.keys()[i] by {
                let k = self.fields.keys()[i];
                self.fields.lemma_entry_in_view(i);
                if k != field_key(id) {
                    assert(before.fields@.contains_key(k));
                    let j = before.fields.keys().index_of(k);
                    assert(before.fields.keys()[j] == k);
                }
            }
            assert forall|other: FieldId| #[trigger]
                self@.contains_key(other) == before@.insert(id, value@).contains_key(other) by {
                if other != id && field_key(other) == field_key(id) {
                    lemma_field_key_injective(other, id);
                }
            }
            assert forall|other: FieldId| self@.contains_key(other) implies #[trigger] self@[other]
                == before@.insert(id, value@)[other] by {
                if other != id && field_key(other) == field_key(id) {
                    lemma_field_key_injective(other, id);
                }
            }
            assert(self@ =~= before@.insert(id, value@));
        }
    }

    /// A copy of the document.
    pub fn copy(&self) -> (copy: Self)
        requires
            self.wf(),
        ensures
            copy.wf(),
            copy@ == self@,
    {
        let mut copy = Document::new();
        let mut i: usize = 0;
        while i < self.len()
            invariant
                self.wf(),
                copy.wf(),
                i <= self.field_ids().len(),
                forall|id: FieldId| #[trigger]
                    copy@.contains_key(id) <==> exists|j: int|
                        0 <= j < i && self.field_ids()[j] == id,
                forall|id: FieldId| copy@.contains_key(id) ==> #[trigger] copy@[id] == self@[id],
            decreases self.field_ids().len() - i,
        {
            let id = self.field_id_at(i);
            let value = copy_bytes(self.value_at(i).as_slice());
            let ghost before = copy;
            copy.insert(id, value);
            proof {
                assert forall|other: FieldId| #[trigger]
                    copy@.contains_key(other) <==> exists|j: int|
                        0 <= j < i + 1 && self.field_ids()[j] == other by {
                    if before@.contains_key(other) {
                        let j = choose|j: int| 0 <= j < i && self.field_ids()[j] == other;
                        assert(0 <= j < i + 1 && self.field_ids()[j] == other);
                    }
                    if exists|j: int| 0 <= j < i + 1 && self.field_ids()[j] == other {
                        let j = choose|j: int| 0 <= j < i + 1 && self.field_ids()[j] == other;
                        if j < i {
                            assert(0 <= j < i && self.field_ids()[j] == other);
                        }
                    }
                }
            }
            i += 1;
        }
        proof {
            self.lemma_field_ids();
            assert forall|id: FieldId| copy@.contains_key(id) == self@.contains_key(id) by {
                if self@.contains_key(id) {
                    let j = self.field_ids().index_of(id);
                    assert(0 <= j < i && self.field_ids()[j] == id);
                }
                if copy@.contains_key(id) {
                    let j = choose|j: int| 0 <= j < i && self.field_ids()[j] == id;
                    assert(self.field_ids().contains(id));
                }
            }
            assert(copy@ =~= self@);
        }
        copy
    }

    /// Lays `newer` over this document: the fields of `newer` replace or
    /// extend those of the document, and the other fields stay.
    pub fn update_with(&mut self, newer: &Document)
        requires
            old(self).wf(),
            newer.wf(),
        ensures
            final(self).wf(),
            final(self)@ == old(self)@.union_prefer_right(newer@),
    {
        let mut i: usize = 0;
        while i < newer.len()
            invariant
                self.wf(),
                newer.wf(),
                i <= newer.field_ids().len(),
                forall|id: FieldId| #[trigger]
                    self@.contains_key(id) <==> old(self)@.contains_key(id) || exists|j: int|
                        0 <= j < i && newer.field_ids()[j] == id,
                forall|id: FieldId|
                    self@.contains_key(id) ==> #[trigger] self@[id] == if exists|j: int|
                        0 <= j < i && newer.field_ids()[j] == id {
                        newer@[id]
                    } else {
                        old(self)@[id]
                    },
            decreases newer.field_ids().len() - i,
        {
            let id = newer.field_id_at(i);
            let value = copy_bytes(newer.value_at(i).as_slice());
            let ghost before = *self;
            self.insert(id, value);
            proof {
                assert forall|other: FieldId| #[trigger]
                    self@.contains_key(other) <==> old(self)@.contains_key(other) || exists|j: int|
                        0 <= j < i + 1 && newer.field_ids()[j] == other by {
                    if exists|j: int| 0 <= j < i && newer.field_ids()[j] == other {
                        let j = choose|j: int| 0 <= j < i && newer.field_ids()[j] == other;
                        assert(0 <= j < i + 1 && newer.field_ids()[j] == other);
                    }
                    if exists|j: int| 0 <= j < i + 1 && newer.field_ids()[j] == other {
                        let j = choose|j: int| 0 <= j < i + 1 && newer.field_ids()[j] == other;
                        if j < i {
                            assert(0 <= j < i && newer.field_ids()[j] == other);
                        }
                    }
                }
                assert forall|other: FieldId| self@.contains_key(other) implies #[trigger] self@[other]
                    == if exists|j: int| 0 <= j < i + 1 && newer.field_ids()[j] == other {
                    newer@[other]
                } else {
                    old(self)@[other]
                } by {
                    if other == id {
                        assert(0 <= i < i + 1 && newer.field_ids()[i as int] == other);
                    } else {
                        if exists|j: int| 0 <= j < i && newer.field_ids()[j] == other {
                            let j = choose|j: int| 0 <= j < i && newer.field_ids()[j] == other;
                            assert(0 <= j < i + 1 && newer.field_ids()[j] == other);
                        }
                        if exists|j: int| 0 <= j < i + 1 && newer.field_ids()[j] == other {
                            let j = choose|j: int| 0 <= j < i + 1 && newer.field_ids()[j] == other;
                            assert(0 <= j < i && newer.field_ids()[j] == other);
                        }
                    }
                }
            }
            i += 1;
        }
        proof {
            newer.lemma_field_ids();
            let merged = old(self)@.union_prefer_right(newer@);
            assert forall|id: FieldId| self@.contains_key(id) == merged.contains_key(id) by {
                if newer@.contains_key(id) {
                    let j = newer.field_ids().index_of(id);
                    assert(0 <= j < i && newer.field_ids()[j] == id);
                }
                if exists|j: int| 0 <= j < i && newer.field_ids()[j] == id {
                    let j = choose|j: int| 0 <= j < i && newer.field_ids()[j] == id;
                    assert(newer.field_ids().contains(id));
                }
            }
            assert forall|id: FieldId| self@.contains_key(id) implies self@[id] == merged[id] by {
                if newer@.contains_key(id) {
                    let j = newer.field_ids().index_of(id);
                    assert(0 <= j < i && newer.field_ids()[j] == id);
                }
                if exists|j: int| 0 <= j < i && newer.field_ids()[j] == id {
                    let j = choose|j: int| 0 <= j < i && newer.field_ids()[j] == id;
                    assert(newer.field_ids().contains(id));
                }
            }
            assert(self@ =~= merged);
        }
    }
}

} // verus!
