//! The strings of the filterable fields, document by document.
//!
//! Each string that a document has in a filterable field is kept as it
//! was sent, under a key made of the field id, the document id and the
//! normalized string. A key of this database names one value of one
//! document: what is written under a key takes the place of what was
//! there, while a posting database joins the two.

use crate::bitmap::{bitmap_contains, bitmap_ids};
use crate::bytes::copy_range;
use crate::documents::{encode_field_id, field_key, DocumentId, FieldId};
use crate::extract::{is_facet_string, StoredDocument, MAX_FACET_VALUE_LENGTH};
use crate::fields::FieldsIdsMap;
use crate::settings::Settings;
use crate::sorted_map::{ByteMap, Entry};
use crate::tokenizer::{normalize_range, normalized};
use roaring::RoaringBitmap;
use vstd::prelude::*;

verus! {

/// The four bytes that stand for a document id in a key, the high byte
/// first.
pub open spec fn docid_key(id: DocumentId) -> Seq<u8> {
    seq![
        (id / 16777216) as u8,
        (id / 65536 % 256) as u8,
        (id / 256 % 256) as u8,
        (id % 256) as u8,
    ]
}

/// The document that a key names: the one whose id stands behind the
/// field id. A key that is too short names none.
pub open spec fn key_docid(key: Seq<u8>) -> Option<DocumentId> {
    if key.len() >= 6 {
        Some((key[2] * 16777216 + key[3] * 65536 + key[4] * 256 + key[5]) as u32)
    } else {
        None
    }
}

/// The key of the string `text` that document `id` has in field `field`.
pub open spec fn value_key(field: FieldId, id: DocumentId, text: Seq<u8>) -> Seq<u8> {
    field_key(field) + docid_key(id) + normalized(text)
}

/// A key names the field and the document that it was made for.
pub proof fn lemma_value_key(field: FieldId, id: DocumentId, text: Seq<u8>)
    ensures
        value_key(field, id, text).len() == 6 + text.len(),
        value_key(field, id, text).subrange(0, 2) == field_key(field),
        key_docid(value_key(field, id, text)) == Some(id),
{
    let key = value_key(field, id, text);
    assert(key.subrange(0, 2) =~= field_key(field));
    assert(key[2] == docid_key(id)[0]);
    assert(key[3] == docid_key(id)[1]);
    assert(key[4] == docid_key(id)[2]);
    assert(key[5] == docid_key(id)[3]);
}

/// The key and the string that the database holds for a field whose
/// serialized value is `value`: none unless the value is a string that
/// the facets take.
pub open spec fn field_entry(field: FieldId, id: DocumentId, value: Seq<u8>) -> Option<
    (Seq<u8>, Seq<u8>),
> {
    if is_facet_string(value) {
        let text = value.subrange(1, value.len() - 1);
        Some((value_key(field, id, text), text))
    } else {
        None
    }
}

/// The database holds `text` under `key` for the document `id`: one of
/// its filterable fields has that string.
pub open spec fn holds_for(
    settings: &Settings,
    fields: Seq<Seq<u8>>,
    id: DocumentId,
    document: Map<FieldId, Seq<u8>>,
    key: Seq<u8>,
    text: Seq<u8>,
) -> bool {
    exists|field: FieldId|
        #![trigger document.contains_key(field)]
        document.contains_key(field) && settings.is_filterable(fields, field) && field_entry(
            field,
            id,
            document[field],
        ) == Some((key, text))
}

/// What is held for a document stands under keys that name it, and one
/// key holds one string.
pub proof fn lemma_holds_for(
    settings: &Settings,
    fields: Seq<Seq<u8>>,
    id: DocumentId,
    document: Map<FieldId, Seq<u8>>,
    key: Seq<u8>,
    text: Seq<u8>,
)
    requires
        holds_for(settings, fields, id, document, key, text),
    ensures
        key_docid(key) == Some(id),
        forall|other: Seq<u8>|
            holds_for(settings, fields, id, document, key, other) ==> other == text,
{
    let field = choose|field: FieldId|
        #![trigger document.contains_key(field)]
        document.contains_key(field) && settings.is_filterable(fields, field) && field_entry(
            field,
            id,
            document[field],
        ) == Some((key, text));
    lemma_value_key(field, id, text);
    assert forall|other: Seq<u8>|
        holds_for(settings, fields, id, document, key, other) implies other == text by {
        let second = choose|second: FieldId|
            #![trigger document.contains_key(second)]
            document.contains_key(second) && settings.is_filterable(fields, second)
                && field_entry(second, id, document[second]) == Some((key, other));
        lemma_value_key(second, id, other);
        crate::documents::lemma_field_key_injective(field, second);
    }
}

/// `values` has every string that the database holds for the document
/// `id`, each under its key.
pub open spec fn document_held(
    values: Map<Seq<u8>, Seq<u8>>,
    settings: &Settings,
    fields: Seq<Seq<u8>>,
    id: DocumentId,
    document: Map<FieldId, Seq<u8>>,
) -> bool {
    forall|key: Seq<u8>, text: Seq<u8>| #[trigger]
        holds_for(settings, fields, id, document, key, text) ==> values.contains_key(key)
            && values[key] == text
}

/// `values` is what the database holds for the documents
/// `documents[from..to]`: every string of theirs, and nothing else.
pub open spec fn is_values_of(
    values: Map<Seq<u8>, Seq<u8>>,
    settings: &Settings,
    fields: Seq<Seq<u8>>,
    documents: Seq<StoredDocument>,
    from: int,
    to: int,
) -> bool {
    &&& forall|key: Seq<u8>| #[trigger]
        values.contains_key(key) ==> exists|n: int|
            from <= n < to && 0 <= n < documents.len() && holds_for(
                settings,
                fields,
                (#[trigger] documents[n]).id,
                documents[n].document@,
                key,
                values[key],
            )
    &&& forall|n: int|
        from <= n < to && 0 <= n < documents.len() ==> document_held(
            values,
            settings,
            fields,
            (#[trigger] documents[n]).id,
            documents[n].document@,
        )
}

/// A key names one of the documents `ids`.
pub open spec fn names_one_of(key: Seq<u8>, ids: Set<DocumentId>) -> bool {
    match key_docid(key) {
        Some(id) => ids.contains(id),
        None => false,
    }
}

/// The values without those of the documents `ids`.
pub open spec fn without_documents(values: Map<Seq<u8>, Seq<u8>>, ids: Set<DocumentId>) -> Map<
    Seq<u8>,
    Seq<u8>,
> {
    values.remove_keys(Set::new(|key: Seq<u8>| names_one_of(key, ids)))
}

/// Writes a document id as the part of a key.
pub fn encode_docid(id: DocumentId) -> (key: Vec<u8>)
    ensures
        key@ == docid_key(id),
{
    let mut key: Vec<u8> = Vec::new();
    key.push((id / 16777216) as u8);
    key.push((id / 65536 % 256) as u8);
    key.push((id / 256 % 256) as u8);
    key.push((id % 256) as u8);
    proof {
        assert(key@ =~= docid_key(id));
    }
    key
}

/// Reads from a key the document that it names.
pub fn decode_docid(key: &[u8]) -> (id: Option<DocumentId>)
    ensures
        id == key_docid(key@),
{
    if key.len() >= 6 {
        let high: u32 = key[2] as u32;
        let upper: u32 = key[3] as u32;
        let lower: u32 = key[4] as u32;
        let low: u32 = key[5] as u32;
        Some(high * 16777216 + upper * 65536 + lower * 256 + low)
    } else {
        None
    }
}

/// The database of the strings of the filterable fields.
pub struct FacetValues {
    entries: ByteMap<Vec<u8>>,
}

impl FacetValues {
    /// The keys of the database, in increasing order.
    pub closed spec fn keys(&self) -> Seq<Seq<u8>> {
        self.entries.keys()
    }

    /// The string under each key.
    pub closed spec fn view(&self) -> Map<Seq<u8>, Seq<u8>> {
        Map::new(
            |key: Seq<u8>| self.entries@.contains_key(key),
            |key: Seq<u8>| self.entries@[key]@,
        )
    }

    /// The keys are in increasing order, each once.
    pub closed spec fn wf(&self) -> bool {
        self.entries.wf()
    }

    /// The listed keys are the keys of the database.
    pub proof fn lemma_keys(&self)
        requires
            self.wf(),
        ensures
            forall|key: Seq<u8>| #[trigger] self@.contains_key(key) <==> self.keys().contains(key),
            forall|i: int, j: int|
                0 <= i < j < self.keys().len() ==> self.keys()[i] != self.keys()[j],
    {
        assert forall|i: int, j: int| 0 <= i < j < self.keys().len() implies self.keys()[i]
            != self.keys()[j] by {
            if self.keys()[i] == self.keys()[j] {
                crate::sorted_map::lemma_sorted_keys_distinct(self.keys(), i, j);
            }
        }
    }

    /// A database that holds nothing.
    pub fn new() -> (values: Self)
        ensures
            values.wf(),
            values@ == Map::<Seq<u8>, Seq<u8>>::empty(),
    {
        let values = FacetValues { entries: ByteMap::new() };
        proof {
            assert(values@ =~= Map::<Seq<u8>, Seq<u8>>::empty());
        }
        values
    }

    /// The number of keys.
    pub fn len(&self) -> (count: usize)
        ensures
            count == self.keys().len(),
    {
        self.entries.len()
    }

    /// The key at position `i`.
    pub fn key_at(&self, i: usize) -> (key: &Vec<u8>)
        requires
            self.wf(),
            i < self.keys().len(),
        ensures
            key@ == self.keys()[i as int],
            self@.contains_key(key@),
    {
        proof {
            self.entries.lemma_entry_in_view(i as int);
        }
        self.entries.key_at(i)
    }

    /// The string under the key at position `i`.
    pub fn value_at(&self, i: usize) -> (text: &Vec<u8>)
        requires
            self.wf(),
            i < self.keys().len(),
        ensures
            text@ == self@[self.keys()[i as int]],
    {
        proof {
            self.entries.lemma_entry_in_view(i as int);
        }
        self.entries.value_at(i)
    }

    /// The string under `key`, if there is one.
    pub fn get(&self, key: &[u8]) -> (text: Option<&Vec<u8>>)
        requires
            self.wf(),
        ensures
            match text {
                Some(found) => self@.contains_key(key@) && found@ == self@[key@],
                None => !self@.contains_key(key@),
            },
    {
        self.entries.get(key)
    }

    /// Puts `text` under `key`, in place of what was there.
    pub fn put(&mut self, key: Vec<u8>, text: Vec<u8>)
        requires
            old(self).wf(),
        ensures
            final(self).wf(),
            final(self)@ == old(self)@.insert(key@, text@),
    {
        let _ = self.entries.insert(key, text);
        proof {
            assert(self@ =~= old(self)@.insert(key@, text@));
        }
    }

    /// Writes a chunk into the database: where both have a key, the
    /// string of the chunk stays.
    pub fn write(&mut self, chunk: FacetValues)
        requires
            old(self).wf(),
            chunk.wf(),
        ensures
            final(self).wf(),
            final(self)@ == old(self)@.union_prefer_right(chunk@),
    {
        let ghost count = chunk.keys().len();
        let mut rest = chunk.entries.into_reversed_entries();
        proof {
            assert(self@ =~= old(self)@.union_prefer_right(
                Map::<Seq<u8>, Seq<u8>>::empty(),
            ));
        }
        while rest.len() > 0
            invariant
                self.wf(),
                chunk.wf(),
                count == chunk.keys().len(),
                rest@.len() <= count,
                forall|i: int|
                    0 <= i < rest@.len() ==> (#[trigger] rest@[i]).key@ == chunk.entries.keys()[count
                        - 1 - i] && rest@[i].value == chunk.entries.values()[count - 1 - i],
                self@ == old(self)@.union_prefer_right(
                    Map::new(
                        |key: Seq<u8>|
                            exists|j: int|
                                0 <= j < count - rest@.len() && #[trigger] chunk.entries.keys()[j] == key,
                        |key: Seq<u8>| chunk@[key],
                    ),
                ),
            decreases rest@.len(),
        {
            let ghost before = self@;
            let ghost at = count - rest@.len();
            let entry = rest.pop().unwrap();
            proof {
                assert(entry.key@ == chunk.entries.keys()[at as int]);
                chunk.entries.lemma_entry_in_view(at as int);
                assert(chunk@[entry.key@] == entry.value@);
            }
            self.put(entry.key, entry.value);
            proof {
                let done = Map::new(
                    |key: Seq<u8>|
                        exists|j: int| 0 <= j < at && #[trigger] chunk.entries.keys()[j] == key,
                    |key: Seq<u8>| chunk@[key],
                );
                let more = Map::new(
                    |key: Seq<u8>|
                        exists|j: int| 0 <= j < at + 1 && #[trigger] chunk.entries.keys()[j] == key,
                    |key: Seq<u8>| chunk@[key],
                );
                assert(more =~= done.insert(entry.key@, entry.value@)) by {
                    assert forall|key: Seq<u8>| more.contains_key(key) == done.insert(
                        entry.key@,
                        entry.value@,
                    ).contains_key(key) by {
                        if done.contains_key(key) {
                            let j = choose|j: int|
                                0 <= j < at && #[trigger] chunk.entries.keys()[j] == key;
                            assert(0 <= j < at + 1 && chunk.entries.keys()[j] == key);
                        }
                        if key == entry.key@ {
                            assert(0 <= at < at + 1 && chunk.entries.keys()[at as int] == key);
                        }
                        if more.contains_key(key) && key != entry.key@ {
                            let j = choose|j: int|
                                0 <= j < at + 1 && #[trigger] chunk.entries.keys()[j] == key;
                            assert(0 <= j < at && chunk.entries.keys()[j] == key);
                        }
                    }
                }
                assert(self@ =~= old(self)@.union_prefer_right(more));
            }
        }
        proof {
            let all = Map::new(
                |key: Seq<u8>|
                    exists|j: int| 0 <= j < count && #[trigger] chunk.entries.keys()[j] == key,
                |key: Seq<u8>| chunk@[key],
            );
            assert(all =~= chunk@) by {
                assert forall|key: Seq<u8>| all.contains_key(key) == chunk@.contains_key(key) by {
                    if chunk@.contains_key(key) {
                        let j = chunk.entries.keys().index_of(key);
                        assert(0 <= j < count && chunk.entries.keys()[j] == key);
                    }
                    if all.contains_key(key) {
                        let j = choose|j: int|
                            0 <= j < count && #[trigger] chunk.entries.keys()[j] == key;
                        assert(chunk.entries.keys().contains(key));
                    }
                }
            }
        }
    }

    /// Takes out what the database holds for the documents `ids`.
    pub fn remove_documents(&mut self, ids: &RoaringBitmap)
        requires
            old(self).wf(),
        ensures
            final(self).wf(),
            final(self)@ == without_documents(old(self)@, bitmap_ids(*ids)),
    {
        let ghost gone = bitmap_ids(*ids);
        let mut kept: ByteMap<Vec<u8>> = ByteMap::new();
        let mut all: ByteMap<Vec<u8>> = ByteMap::new();
        core::mem::swap(&mut self.entries, &mut all);
        let ghost count = all.keys().len();
        let mut rest = all.into_reversed_entries();
        while rest.len() > 0
            invariant
                all.wf(),
                kept.wf(),
                gone == bitmap_ids(*ids),
                count == all.keys().len(),
                rest@.len() <= count,
                forall|i: int|
                    0 <= i < rest@.len() ==> (#[trigger] rest@[i]).key@ == all.keys()[count - 1 - i]
                        && rest@[i].value == all.values()[count - 1 - i],
                forall|k: int|
                    0 <= k < kept.keys().len() ==> exists|j: int|
                        0 <= j < count - rest@.len() && all.keys()[j] == #[trigger] kept.keys()[k],
                forall|key: Seq<u8>| #[trigger]
                    kept@.contains_key(key) <==> !names_one_of(key, gone) && exists|j: int|
                        0 <= j < count - rest@.len() && #[trigger] all.keys()[j] == key,
                forall|key: Seq<u8>| #[trigger] kept@.contains_key(key) ==> kept@[key] == all@[key],
            decreases rest@.len(),
        {
            let ghost at = count - rest@.len();
            let ghost before = kept;
            let entry = rest.pop().unwrap();
            proof {
                assert(entry.key@ == all.keys()[at as int]);
                all.lemma_entry_in_view(at as int);
            }
            let leaves = match decode_docid(entry.key.as_slice()) {
                Some(id) => bitmap_contains(ids, id),
                None => false,
            };
            if !leaves {
                proof {
                    if before.keys().len() > 0 {
                        let last = before.keys().len() - 1;
                        let j = choose|j: int|
                            0 <= j < at && all.keys()[j] == before.keys()[last];
                        assert(crate::bytes::key_lt(all.keys()[j], all.keys()[at as int]));
                    }
                }
                kept.push_last(entry.key, entry.value);
                proof {
                    assert forall|k: int| 0 <= k < kept.keys().len() implies exists|j: int|
                        0 <= j < at + 1 && all.keys()[j] == #[trigger] kept.keys()[k] by {
                        if k < before.keys().len() {
                            let j = choose|j: int|
                                0 <= j < at && all.keys()[j] == before.keys()[k];
                            assert(0 <= j < at + 1 && all.keys()[j] == kept.keys()[k]);
                        } else {
                            assert(all.keys()[at as int] == kept.keys()[k]);
                        }
                    }
                }
            }
            proof {
                assert forall|key: Seq<u8>| #[trigger]
                    kept@.contains_key(key) <==> !names_one_of(key, gone) && exists|j: int|
                        0 <= j < at + 1 && #[trigger] all.keys()[j] == key by {
                    if before@.contains_key(key) {
                        let j = choose|j: int| 0 <= j < at && #[trigger] all.keys()[j] == key;
                        assert(0 <= j < at + 1 && all.keys()[j] == key);
                    }
                    if exists|j: int| 0 <= j < at + 1 && #[trigger] all.keys()[j] == key {
                        let j = choose|j: int| 0 <= j < at + 1 && #[trigger] all.keys()[j] == key;
                        if j < at {
                            assert(0 <= j < at && all.keys()[j] == key);
                        }
                    }
                    if key == all.keys()[at as int] {
                        assert(0 <= at < at + 1 && all.keys()[at as int] == key);
                    }
                }
            }
        }
        self.entries = kept;
        proof {
            assert forall|key: Seq<u8>| self@.contains_key(key) == without_documents(
                old(self)@,
                gone,
            ).contains_key(key) by {
                if old(self)@.contains_key(key) {
                    let j = all.keys().index_of(key);
                    assert(0 <= j < count && all.keys()[j] == key);
                }
                if kept@.contains_key(key) {
                    let j = choose|j: int| 0 <= j < count && #[trigger] all.keys()[j] == key;
                    assert(all.keys().contains(key));
                }
            }
            assert(self@ =~= without_documents(old(self)@, gone));
        }
    }
}

/// `values` has what the database holds for one field of a document.
pub open spec fn field_held(
    values: Map<Seq<u8>, Seq<u8>>,
    settings: &Settings,
    fields: Seq<Seq<u8>>,
    id: DocumentId,
    document: Map<FieldId, Seq<u8>>,
    field: FieldId,
) -> bool {
    document.contains_key(field) && settings.is_filterable(fields, field) ==> match field_entry(
        field,
        id,
        document[field],
    ) {
        Some((key, text)) => values.contains_key(key) && values[key] == text,
        None => true,
    }
}

/// The key and the string for a field whose serialized value is `value`.
fn make_entry(field: FieldId, id: DocumentId, value: &[u8]) -> (entry: Option<Entry<Vec<u8>>>)
    ensures
        match entry {
            Some(made) => field_entry(field, id, value@) == Some((made.key@, made.value@)),
            None => field_entry(field, id, value@).is_none(),
        },
{
    let n = value.len();
    if 2 < n && n <= MAX_FACET_VALUE_LENGTH + 2 && value[0] == 34 && value[n - 1] == 34 {
        let mut key = encode_field_id(field);
        let mut docid = encode_docid(id);
        key.append(&mut docid);
        let mut content = normalize_range(value, 1, n - 1);
        key.append(&mut content);
        let text = copy_range(value, 1, n - 1);
        Some(Entry { key, value: text })
    } else {
        None
    }
}

/// Extracts what the database holds for the documents
/// `documents[from..to]`.
pub fn extract_facet_values(
    settings: &Settings,
    fields: &FieldsIdsMap,
    documents: &Vec<StoredDocument>,
    from: usize,
    to: usize,
) -> (chunk: FacetValues)
    requires
        from <= to <= documents@.len(),
        forall|n: int| 0 <= n < documents@.len() ==> (#[trigger] documents@[n]).document.wf(),
        forall|a: int, b: int|
            0 <= a < b < documents@.len() ==> (#[trigger] documents@[a]).id != (
            #[trigger] documents@[b]).id,
    ensures
        chunk.wf(),
        is_values_of(chunk@, settings, fields@, documents@, from as int, to as int),
{
    let mut chunk = FacetValues::new();
    let mut n: usize = from;
    while n < to
        invariant
            from <= n <= to,
            to <= documents@.len(),
            chunk.wf(),
            forall|m: int| 0 <= m < documents@.len() ==> (#[trigger] documents@[m]).document.wf(),
            forall|a: int, b: int|
                0 <= a < b < documents@.len() ==> (#[trigger] documents@[a]).id != (
                #[trigger] documents@[b]).id,
            is_values_of(chunk@, settings, fields@, documents@, from as int, n as int),
        decreases to - n,
    {
        let stored = &documents[n];
        let id = stored.id;
        let ghost document = stored.document@;
        let ghost listed = stored.document.field_ids();
        let mut p: usize = 0;
        proof {
            stored.document.lemma_field_ids();
        }
        while p < stored.document.len()
            invariant
                from <= n < to,
                to <= documents@.len(),
                chunk.wf(),
                *stored == documents@[n as int],
                id == stored.id,
                document == stored.document@,
                listed == stored.document.field_ids(),
                stored.document.wf(),
                p <= listed.len(),
                forall|a: int, b: int|
                    0 <= a < b < documents@.len() ==> (#[trigger] documents@[a]).id != (
                    #[trigger] documents@[b]).id,
                forall|i: int, j: int| 0 <= i < j < listed.len() ==> listed[i] != listed[j],
                forall|key: Seq<u8>| #[trigger]
                    chunk@.contains_key(key) ==> exists|m: int|
                        from <= m < n + 1 && 0 <= m < documents@.len() && holds_for(
                            settings,
                            fields@,
                            (#[trigger] documents@[m]).id,
                            documents@[m].document@,
                            key,
                            chunk@[key],
                        ),
                forall|m: int|
                    from <= m < n && 0 <= m < documents@.len() ==> document_held(
                        chunk@,
                        settings,
                        fields@,
                        (#[trigger] documents@[m]).id,
                        documents@[m].document@,
                    ),
                forall|q: int|
                    0 <= q < p ==> field_held(
                        chunk@,
                        settings,
                        fields@,
                        id,
                        document,
                        #[trigger] listed[q],
                    ),
            decreases listed.len() - p,
        {
            let field = stored.document.field_id_at(p);
            if settings.filterable(fields, field) {
                match make_entry(field, id, stored.document.value_at(p).as_slice()) {
                    Some(entry) => {
                        let ghost before = chunk@;
                        let ghost key = entry.key@;
                        let ghost text = entry.value@;
                        chunk.put(entry.key, entry.value);
                        proof {
                            lemma_value_key(field, id, text);
                            assert(holds_for(settings, fields@, id, document, key, text));
                            assert forall|other: Seq<u8>| #[trigger]
                                chunk@.contains_key(other) implies exists|m: int|
                                from <= m < n + 1 && 0 <= m < documents@.len() && holds_for(
                                    settings,
                                    fields@,
                                    (#[trigger] documents@[m]).id,
                                    documents@[m].document@,
                                    other,
                                    chunk@[other],
                                ) by {
                                if other == key {
                                    assert(holds_for(
                                        settings,
                                        fields@,
                                        documents@[n as int].id,
                                        documents@[n as int].document@,
                                        other,
                                        chunk@[other],
                                    ));
                                } else {
                                    assert(before.contains_key(other));
                                    let m = choose|m: int|
                                        from <= m < n + 1 && 0 <= m < documents@.len() && holds_for(
                                            settings,
                                            fields@,
                                            (#[trigger] documents@[m]).id,
                                            documents@[m].document@,
                                            other,
                                            before[other],
                                        );
                                    assert(holds_for(
                                        settings,
                                        fields@,
                                        documents@[m].id,
                                        documents@[m].document@,
                                        other,
                                        chunk@[other],
                                    ));
                                }
                            }
                            assert forall|m: int|
                                from <= m < n && 0 <= m < documents@.len() implies document_held(
                                chunk@,
                                settings,
                                fields@,
                                (#[trigger] documents@[m]).id,
                                documents@[m].document@,
                            ) by {
                                assert(document_held(
                                    before,
                                    settings,
                                    fields@,
                                    documents@[m].id,
                                    documents@[m].document@,
                                ));
                                assert forall|held: Seq<u8>, string: Seq<u8>| #[trigger]
                                    holds_for(
                                        settings,
                                        fields@,
                                        documents@[m].id,
                                        documents@[m].document@,
                                        held,
                                        string,
                                    ) implies chunk@.contains_key(held) && chunk@[held]
                                    == string by {
                                    lemma_holds_for(
                                        settings,
                                        fields@,
                                        documents@[m].id,
                                        documents@[m].document@,
                                        held,
                                        string,
                                    );
                                    assert(documents@[m].id != documents@[n as int].id);
                                    assert(held != key);
                                }
                            }
                            assert forall|q: int| 0 <= q < p + 1 implies field_held(
                                chunk@,
                                settings,
                                fields@,
                                id,
                                document,
                                #[trigger] listed[q],
                            ) by {
                                if q < p {
                                    assert(field_held(before, settings, fields@, id, document, listed[q]));
                                    assert(listed[q] != field);
                                    match field_entry(listed[q], id, document[listed[q]]) {
                                        Some((held, string)) => {
                                            lemma_value_key(listed[q], id, string);
                                            if held == key {
                                                crate::documents::lemma_field_key_injective(
                                                    listed[q],
                                                    field,
                                                );
                                            }
                                        },
                                        None => {},
                                    }
                                }
                            }
                        }
                    },
                    None => {},
                }
            }
            p += 1;
        }
        proof {
            assert(document_held(chunk@, settings, fields@, id, document)) by {
                assert forall|held: Seq<u8>, string: Seq<u8>| #[trigger]
                    holds_for(settings, fields@, id, document, held, string) implies chunk@.contains_key(
                    held,
                ) && chunk@[held] == string by {
                    let field = choose|field: FieldId|
                        #![trigger document.contains_key(field)]
                        document.contains_key(field) && settings.is_filterable(fields@, field)
                            && field_entry(field, id, document[field]) == Some((held, string));
                    assert(listed.contains(field));
                    let q = listed.index_of(field);
                    assert(field_held(chunk@, settings, fields@, id, document, listed[q]));
                }
            }
        }
        n += 1;
    }
    chunk
}

} // verus!
