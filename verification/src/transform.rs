//! The transform: what a sequence of batches and removals makes of the
//! documents, before anything is written.
//!
//! Each document that arrives is given an internal id. A document whose
//! identifier the index has replaces the stored one, which is marked for
//! deletion; under `UpdateDocuments` it is first laid over the stored one.
//! Documents that share an identifier within the sequence end up in one
//! slot, the later ones replacing or extending the earlier ones.

use crate::bitmap::{bitmap_clone, bitmap_contains, bitmap_ids, bitmap_insert, bitmap_new, bitmap_union_with};
use crate::bytes::copy_bytes;
use crate::documents::{Document, DocumentId, FieldId};
use crate::enrich::{field_views, raw_value, EnrichedDocument, RawField};
use crate::error::{Error, InternalError, UserError};
use crate::extract::StoredDocument;
use crate::fields::{FieldsIdsMap, MAX_FIELDS};
use crate::index::Index;
use crate::index_documents::IndexDocumentsMethod;
use crate::sorted_map::ByteMap;
use roaring::RoaringBitmap;
use vstd::prelude::*;

verus! {

/// The number of document ids.
pub open spec fn id_limit() -> int {
    0x1_0000_0000
}

/// The document that an identifier is going to have, and its internal id.
pub struct Planned {
    pub id: DocumentId,
    pub document: Map<FieldId, Seq<u8>>,
}

/// What a transform has made of the batches and removals it has read.
pub struct TransformState {
    /// The field catalogue, with the fields that the batches brought.
    pub fields: Seq<Seq<u8>>,
    /// For each identifier that was named: the document it is going to
    /// have, or none where the document is to go.
    pub pending: Map<Seq<u8>, Option<Planned>>,
    /// The ids of the stored documents that are to be deleted.
    pub replaced: Set<DocumentId>,
    /// The ids that cannot be given out.
    pub used: Set<DocumentId>,
    /// The id from which the next free one is sought.
    pub cursor: int,
}

/// The catalogue `fields` after the names `names` arrived: each name that
/// is new has been added at the end, in the order of arrival.
pub open spec fn catalogue_with(fields: Seq<Seq<u8>>, names: Seq<Seq<u8>>) -> Seq<Seq<u8>>
    decreases names.len(),
{
    if names.len() == 0 {
        fields
    } else {
        let before = catalogue_with(fields, names.drop_last());
        if before.contains(names.last()) {
            before
        } else {
            before.push(names.last())
        }
    }
}

/// The names of the fields of a document, in the order of the document.
pub open spec fn raw_names(raw: Seq<(Seq<u8>, Seq<u8>)>) -> Seq<Seq<u8>> {
    Seq::new(raw.len(), |i: int| raw[i].0)
}

/// The document that `raw` is under the catalogue `fields`: each field of
/// the catalogue that `raw` names has the value that `raw` gives it.
pub open spec fn resolved(fields: Seq<Seq<u8>>, raw: Seq<(Seq<u8>, Seq<u8>)>) -> Map<
    FieldId,
    Seq<u8>,
> {
    Map::new(
        |id: FieldId| id < fields.len() && raw_value(raw, fields[id as int]).is_some(),
        |id: FieldId| raw_value(raw, fields[id as int]).unwrap(),
    )
}

/// The first id from `from` on that is not in `used`; `id_limit()` if
/// there is none.
pub open spec fn first_free(used: Set<DocumentId>, from: int) -> int
    decreases id_limit() - from,
{
    if from < 0 || from >= id_limit() {
        id_limit()
    } else if !used.contains(from as DocumentId) {
        from
    } else {
        first_free(used, from + 1)
    }
}

/// The document that is kept when `newer` arrives for an identifier whose
/// document so far is `base`.
pub open spec fn merged(
    method: IndexDocumentsMethod,
    base: Option<Map<FieldId, Seq<u8>>>,
    newer: Map<FieldId, Seq<u8>>,
) -> Map<FieldId, Seq<u8>> {
    match base {
        Some(older) => if method == IndexDocumentsMethod::UpdateDocuments {
            older.union_prefer_right(newer)
        } else {
            newer
        },
        None => newer,
    }
}

/// The transform has a document planned for `name`.
pub open spec fn is_planned(state: TransformState, name: Seq<u8>) -> bool {
    state.pending.contains_key(name) && state.pending[name].is_some()
}

/// The index has a document for `name` that the transform has not touched.
pub open spec fn is_untouched(state: TransformState, index: &Index, name: Seq<u8>) -> bool {
    !state.pending.contains_key(name) && index.external_ids().contains_key(name)
}

/// The state after a document with the identifier `name` and the fields
/// `raw` was read, or the fault that stopped the reading: the catalogue
/// has no room for the fields of the document, or no id is free.
///
/// A document that is already planned for `name` keeps its id. Any other
/// document takes the first free id; where the index has an untouched
/// document for `name`, that one is marked for deletion and is the base
/// that `raw` is laid over under `UpdateDocuments`.
pub open spec fn state_after_addition(
    index: &Index,
    method: IndexDocumentsMethod,
    state: TransformState,
    name: Seq<u8>,
    raw: Seq<(Seq<u8>, Seq<u8>)>,
) -> Result<TransformState, UserError> {
    let fields = catalogue_with(state.fields, raw_names(raw));
    let document = resolved(fields, raw);
    let id = first_free(state.used, state.cursor);
    if fields.len() > MAX_FIELDS {
        Err(UserError::AttributeLimitReached)
    } else if is_planned(state, name) {
        let current = state.pending[name].unwrap();
        Ok(
            TransformState {
                fields,
                pending: state.pending.insert(
                    name,
                    Some(
                        Planned {
                            id: current.id,
                            document: merged(method, Some(current.document), document),
                        },
                    ),
                ),
                ..state
            },
        )
    } else if id >= id_limit() {
        Err(UserError::DocumentLimitReached)
    } else if is_untouched(state, index, name) {
        let stored = index.external_ids()[name];
        Ok(
            TransformState {
                fields,
                pending: state.pending.insert(
                    name,
                    Some(
                        Planned {
                            id: id as DocumentId,
                            document: merged(method, Some(index.documents()[stored]), document),
                        },
                    ),
                ),
                replaced: state.replaced.insert(stored),
                used: state.used.insert(id as DocumentId),
                cursor: id + 1,
            },
        )
    } else {
        Ok(
            TransformState {
                fields,
                pending: state.pending.insert(
                    name,
                    Some(Planned { id: id as DocumentId, document }),
                ),
                replaced: state.replaced,
                used: state.used.insert(id as DocumentId),
                cursor: id + 1,
            },
        )
    }
}

/// The state after the documents `documents` were read one after the
/// other, or the fault of the first document that could not be read.
pub open spec fn state_after_batch(
    index: &Index,
    method: IndexDocumentsMethod,
    state: TransformState,
    documents: Seq<(Seq<u8>, Seq<(Seq<u8>, Seq<u8>)>)>,
) -> Result<TransformState, UserError>
    decreases documents.len(),
{
    if documents.len() == 0 {
        Ok(state)
    } else {
        match state_after_batch(index, method, state, documents.drop_last()) {
            Ok(before) => state_after_addition(
                index,
                method,
                before,
                documents.last().0,
                documents.last().1,
            ),
            Err(fault) => Err(fault),
        }
    }
}

/// The identifier and the fields of each document, as byte strings.
pub open spec fn document_views(documents: Seq<EnrichedDocument>) -> Seq<
    (Seq<u8>, Seq<(Seq<u8>, Seq<u8>)>),
> {
    Seq::new(documents.len(), |i: int| (documents[i].external_id@, field_views(documents[i].fields@)))
}

/// Whether the removal of `name` removes a document: one that is planned,
/// or one of the index that the transform has not touched.
pub open spec fn removal_counts(state: TransformState, index: &Index, name: Seq<u8>) -> bool {
    is_planned(state, name) || is_untouched(state, index, name)
}

/// The state after the removal of `name`: a planned document is dropped,
/// an untouched document of the index is marked for deletion, and nothing
/// changes where there is neither.
pub open spec fn state_after_removal(state: TransformState, index: &Index, name: Seq<u8>) -> TransformState {
    if is_planned(state, name) {
        TransformState { pending: state.pending.insert(name, None), ..state }
    } else if is_untouched(state, index, name) {
        TransformState {
            pending: state.pending.insert(name, None),
            replaced: state.replaced.insert(index.external_ids()[name]),
            ..state
        }
    } else {
        state
    }
}

/// The state after the identifiers `names` were removed one after the
/// other.
pub open spec fn state_after_removals(state: TransformState, index: &Index, names: Seq<Vec<u8>>) -> TransformState
    decreases names.len(),
{
    if names.len() == 0 {
        state
    } else {
        state_after_removal(
            state_after_removals(state, index, names.drop_last()),
            index,
            names.last()@,
        )
    }
}

/// How many of the removals of `names`, made one after the other, remove
/// a document.
pub open spec fn removals_counted(state: TransformState, index: &Index, names: Seq<Vec<u8>>) -> nat
    decreases names.len(),
{
    if names.len() == 0 {
        0
    } else {
        let before = state_after_removals(state, index, names.drop_last());
        removals_counted(state, index, names.drop_last()) + if removal_counts(
            before,
            index,
            names.last()@,
        ) {
            1nat
        } else {
            0nat
        }
    }
}

/// The state of a transform fits the index that it was made for.
pub open spec fn state_fits(state: TransformState, index: &Index) -> bool {
    &&& 0 <= state.cursor <= id_limit()
    &&& state.fields.len() <= MAX_FIELDS
    &&& state.fields.no_duplicates()
    &&& index.fields().is_prefix_of(state.fields)
    &&& forall|id: DocumentId|
        index.live().contains(id) || index.soft_deleted().contains(id)
            ==> #[trigger] state.used.contains(id)
    &&& forall|name: Seq<u8>| #[trigger]
        is_planned(state, name) ==> {
            let id = state.pending[name].unwrap().id;
            &&& state.used.contains(id)
            &&& id < state.cursor
            &&& !index.live().contains(id)
            &&& !index.soft_deleted().contains(id)
        }
    &&& forall|a: Seq<u8>, b: Seq<u8>|
        #![trigger is_planned(state, a), is_planned(state, b)]
        is_planned(state, a) && is_planned(state, b) && a != b ==> state.pending[a].unwrap().id
            != state.pending[b].unwrap().id
    &&& forall|id: DocumentId| #[trigger]
        state.replaced.contains(id) ==> index.live().contains(id) && state.pending.contains_key(
            index.external_id_of(id),
        )
    &&& forall|name: Seq<u8>| #[trigger]
        state.pending.contains_key(name) && index.external_ids().contains_key(name)
            ==> state.replaced.contains(index.external_ids()[name])
}

/// What a transform hands to the indexing: the planned documents and what
/// goes with them.
pub struct TransformOutput {
    /// The name of the primary key, where it is known.
    pub primary_key: Option<Vec<u8>>,
    /// The field catalogue, with the fields that the batches brought.
    pub fields_ids_map: FieldsIdsMap,
    /// The ids of the planned documents.
    pub new_documents_ids: RoaringBitmap,
    /// The ids of the stored documents that are to be deleted.
    pub replaced_documents_ids: RoaringBitmap,
    /// The number of documents that were read.
    pub documents_count: usize,
    /// The planned documents, in the order of their ids.
    pub documents: Vec<StoredDocument>,
}

impl TransformOutput {
    /// The output can be applied to `index`: its ids are free and in
    /// increasing order, its identifiers are distinct, and every stored
    /// document whose identifier it names is to be deleted.
    pub open spec fn fits(&self, index: &Index) -> bool {
        &&& index.wf()
        &&& self.fields_ids_map.wf()
        &&& index.fields().is_prefix_of(self.fields_ids_map@)
        &&& forall|n: int|
            0 <= n < self.documents@.len() ==> {
                &&& (#[trigger] self.documents@[n]).document.wf()
                &&& !index.live().contains(self.documents@[n].id)
                &&& !index.soft_deleted().contains(self.documents@[n].id)
                &&& index.external_ids().contains_key(self.documents@[n].external_id@)
                    ==> bitmap_ids(self.replaced_documents_ids).contains(
                    index.external_ids()[self.documents@[n].external_id@],
                )
            }
        &&& forall|a: int, b: int|
            0 <= a < b < self.documents@.len() ==> (#[trigger] self.documents@[a]).id < (
            #[trigger] self.documents@[b]).id && self.documents@[a].external_id@
                != self.documents@[b].external_id@
        &&& forall|id: DocumentId| #[trigger]
            bitmap_ids(self.replaced_documents_ids).contains(id) ==> index.live().contains(id)
        &&& forall|id: DocumentId| #[trigger]
            bitmap_ids(self.new_documents_ids).contains(id) <==> exists|n: int|
                0 <= n < self.documents@.len() && (#[trigger] self.documents@[n]).id == id
    }

    /// The output holds what `state` has planned.
    pub open spec fn realizes(&self, state: TransformState) -> bool {
        &&& self.fields_ids_map@ == state.fields
        &&& bitmap_ids(self.replaced_documents_ids) == state.replaced
        &&& forall|n: int|
            0 <= n < self.documents@.len() ==> is_planned(
                state,
                (#[trigger] self.documents@[n]).external_id@,
            ) && state.pending[self.documents@[n].external_id@].unwrap() == (Planned {
                id: self.documents@[n].id,
                document: self.documents@[n].document@,
            })
        &&& forall|name: Seq<u8>| #[trigger]
            is_planned(state, name) ==> exists|n: int|
                0 <= n < self.documents@.len() && (#[trigger] self.documents@[n]).external_id@
                    == name
    }
}

/// The state of a transform that has read nothing: no id of the index can
/// be given out, and the catalogue is that of the index.
pub open spec fn initial_state(index: &Index) -> TransformState {
    TransformState {
        fields: index.fields(),
        pending: Map::empty(),
        replaced: Set::empty(),
        used: index.live().union(index.soft_deleted()),
        cursor: 0,
    }
}

/// A document that a transform has given an id to. It holds no document
/// any more once its identifier was removed.
pub struct NewDocument {
    pub id: DocumentId,
    pub external_id: Vec<u8>,
    pub document: Option<Document>,
}

/// Reads batches and removals and plans what they make of the index.
pub struct Transform {
    method: IndexDocumentsMethod,
    fields_ids_map: FieldsIdsMap,
    documents: Vec<NewDocument>,
    slots: ByteMap<Option<usize>>,
    replaced_documents_ids: RoaringBitmap,
    used_documents_ids: RoaringBitmap,
    next_id: u64,
}

impl Transform {
    /// What the transform has made of what it has read.
    pub closed spec fn view(&self) -> TransformState {
        TransformState {
            fields: self.fields_ids_map@,
            pending: Map::new(
                |name: Seq<u8>| self.slots@.contains_key(name),
                |name: Seq<u8>|
                    match self.slots@[name] {
                        Some(at) => Some(
                            Planned {
                                id: self.documents@[at as int].id,
                                document: self.documents@[at as int].document.unwrap()@,
                            },
                        ),
                        None => None,
                    },
            ),
            replaced: bitmap_ids(self.replaced_documents_ids),
            used: bitmap_ids(self.used_documents_ids),
            cursor: self.next_id as int,
        }
    }

    /// The method by which documents with a known identifier are read.
    pub closed spec fn method(&self) -> IndexDocumentsMethod {
        self.method
    }

    /// The transform is sound and fits `index`.
    pub closed spec fn wf_for(&self, index: &Index) -> bool {
        &&& index.wf()
        &&& self.fields_ids_map.wf()
        &&& self.slots.wf()
        &&& self.next_id <= id_limit()
        &&& state_fits(self@, index)
        &&& forall|name: Seq<u8>| #[trigger]
            self.slots@.contains_key(name) ==> match self.slots@[name] {
                Some(at) => {
                    &&& at < self.documents@.len()
                    &&& self.documents@[at as int].external_id@ == name
                    &&& self.documents@[at as int].document.is_some()
                    &&& self.documents@[at as int].document.unwrap().wf()
                },
                None => true,
            }
        &&& forall|at: int|
            0 <= at < self.documents@.len() && (#[trigger] self.documents@[at]).document.is_some()
                ==> self.slots@.contains_key(self.documents@[at].external_id@)
                && self.slots@[self.documents@[at].external_id@] == Some(at as usize)
        &&& forall|a: int, b: int|
            0 <= a < b < self.documents@.len() ==> (#[trigger] self.documents@[a]).id < (
            #[trigger] self.documents@[b]).id
        &&& forall|at: int|
            0 <= at < self.documents@.len() ==> (#[trigger] self.documents@[at]).id < self.next_id
    }

    /// A transform for `index` that has read nothing.
    pub fn new(index: &Index, method: IndexDocumentsMethod) -> (transform: Self)
        requires
            index.wf(),
        ensures
            transform.wf_for(index),
            transform.method() == method,
            transform@ == initial_state(index),
    {
        let mut used = bitmap_clone(index.documents_ids());
        bitmap_union_with(&mut used, index.soft_deleted_documents_ids());
        let transform = Transform {
            method,
            fields_ids_map: index.fields_ids_map().copy(),
            documents: Vec::new(),
            slots: ByteMap::new(),
            replaced_documents_ids: bitmap_new(),
            used_documents_ids: used,
            next_id: 0,
        };
        proof {
            transform.fields_ids_map.lemma_wf();
            index.lemma_wf();
            assert(transform@.pending =~= Map::<Seq<u8>, Option<Planned>>::empty());
            assert(transform@.fields.no_duplicates());
            assert(index.fields().is_prefix_of(transform@.fields));
        }
        transform
    }

    fn allocate(&mut self) -> (id: Option<DocumentId>)
        requires
            old(self).next_id <= id_limit(),
        ensures
            final(self).method == old(self).method,
            final(self).fields_ids_map == old(self).fields_ids_map,
            final(self).documents == old(self).documents,
            final(self).slots == old(self).slots,
            final(self).replaced_documents_ids == old(self).replaced_documents_ids,
            match id {
                Some(found) => {
                    &&& found == first_free(old(self)@.used, old(self)@.cursor)
                    &&& final(self)@.used == old(self)@.used.insert(found)
                    &&& final(self).next_id == found + 1
                    &&& old(self).next_id <= found
                    &&& !old(self)@.used.contains(found)
                },
                None => first_free(old(self)@.used, old(self)@.cursor) >= id_limit() && *final(self)
                    == *old(self),
            },
    {
        let mut candidate: u64 = self.next_id;
        while candidate < 0x1_0000_0000 && bitmap_contains(
            &self.used_documents_ids,
            candidate as u32,
        )
            invariant
                *self == *old(self),
                self.next_id <= candidate <= id_limit(),
                first_free(self@.used, self@.cursor) == first_free(self@.used, candidate as int),
            decreases id_limit() - candidate,
        {
            candidate += 1;
        }
        if candidate >= 0x1_0000_0000 {
            None
        } else {
            let id = candidate as u32;
            let _ = bitmap_insert(&mut self.used_documents_ids, id);
            self.next_id = candidate + 1;
            Some(id)
        }
    }

    fn resolve(&mut self, fields: &Vec<RawField>) -> (document: Option<Document>)
        requires
            old(self).fields_ids_map.wf(),
        ensures
            final(self).method == old(self).method,
            final(self).documents == old(self).documents,
            final(self).slots == old(self).slots,
            final(self).replaced_documents_ids == old(self).replaced_documents_ids,
            final(self).used_documents_ids == old(self).used_documents_ids,
            final(self).next_id == old(self).next_id,
            final(self).fields_ids_map.wf(),
            old(self).fields_ids_map@.is_prefix_of(final(self).fields_ids_map@),
            match document {
                Some(found) => {
                    &&& found.wf()
                    &&& final(self).fields_ids_map@ == catalogue_with(
                        old(self).fields_ids_map@,
                        raw_names(field_views(fields@)),
                    )
                    &&& found@ == resolved(final(self).fields_ids_map@, field_views(fields@))
                },
                None => catalogue_with(
                    old(self).fields_ids_map@,
                    raw_names(field_views(fields@)),
                ).len() > MAX_FIELDS,
            },
    {
        let ghost raw = field_views(fields@);
        let ghost names = raw_names(raw);
        let mut document = Document::new();
        let mut i: usize = 0;
        proof {
            assert(names.subrange(0, 0) =~= Seq::<Seq<u8>>::empty());
            assert(document@ =~= resolved(self.fields_ids_map@, raw.subrange(0, 0)));
        }
        while i < fields.len()
            invariant
                i <= fields@.len(),
                raw == field_views(fields@),
                names == raw_names(raw),
                self.method == old(self).method,
                self.documents == old(self).documents,
                self.slots == old(self).slots,
                self.replaced_documents_ids == old(self).replaced_documents_ids,
                self.used_documents_ids == old(self).used_documents_ids,
                self.next_id == old(self).next_id,
                self.fields_ids_map.wf(),
                document.wf(),
                old(self).fields_ids_map@.is_prefix_of(self.fields_ids_map@),
                self.fields_ids_map@ == catalogue_with(
                    old(self).fields_ids_map@,
                    names.subrange(0, i as int),
                ),
                document@ == resolved(self.fields_ids_map@, raw.subrange(0, i as int)),
            decreases fields@.len() - i,
        {
            let ghost before = self.fields_ids_map@;
            let ghost partial = document@;
            proof {
                assert(names.subrange(0, i + 1).drop_last() =~= names.subrange(0, i as int));
                assert(names.subrange(0, i + 1).last() == names[i as int]);
                assert(raw.subrange(0, i + 1).drop_last() =~= raw.subrange(0, i as int));
                assert(raw.subrange(0, i + 1).last() == raw[i as int]);
                assert(names[i as int] == fields@[i as int].name@);
            }
            match self.fields_ids_map.insert(fields[i].name.as_slice()) {
                Some(id) => {
                    document.insert(id, copy_bytes(fields[i].value.as_slice()));
                    proof {
                        self.fields_ids_map.lemma_wf();
                        let after = self.fields_ids_map@;
                        let name = names[i as int];
                        assert(after[id as int] == name);
                        assert forall|other: FieldId| #[trigger]
                            document@.contains_key(other) == resolved(
                                after,
                                raw.subrange(0, i + 1),
                            ).contains_key(other) && (document@.contains_key(other)
                                ==> document@[other] == resolved(after, raw.subrange(0, i
                                    + 1))[other]) by {
                            if other != id {
                                if other < after.len() {
                                    if other < id {
                                        assert(after[other as int] != after[id as int]);
                                    } else {
                                        assert(after[id as int] != after[other as int]);
                                    }
                                    if other < before.len() {
                                        assert(after[other as int] == before[other as int]);
                                    } else {
                                        assert(after == before.push(name));
                                    }
                                }
                            }
                        }
                        assert(document@ =~= resolved(after, raw.subrange(0, i + 1)));
                    }
                },
                None => {
                    proof {
                        lemma_catalogue_grows(
                            old(self).fields_ids_map@,
                            names.subrange(0, i + 1),
                            names,
                        );
                    }
                    return None;
                },
            }
            i += 1;
        }
        proof {
            assert(names.subrange(0, i as int) =~= names);
            assert(raw.subrange(0, i as int) =~= raw);
        }
        Some(document)
    }

    /// Reads one document.
    pub fn add_document(&mut self, index: &Index, document: &EnrichedDocument) -> (result: Result<
        (),
        UserError,
    >)
        requires
            old(self).wf_for(index),
        ensures
            final(self).method() == old(self).method(),
            match result {
                Ok(()) => final(self).wf_for(index) && state_after_addition(
                    index,
                    old(self).method(),
                    old(self)@,
                    document.external_id@,
                    field_views(document.fields@),
                ) == Ok::<TransformState, UserError>(final(self)@),
                Err(fault) => state_after_addition(
                    index,
                    old(self).method(),
                    old(self)@,
                    document.external_id@,
                    field_views(document.fields@),
                ) == Err::<TransformState, UserError>(fault),
            },
    {
        let ghost before = *self;
        let ghost name = document.external_id@;
        let ghost raw = field_views(document.fields@);
        let update = matches!(self.method, IndexDocumentsMethod::UpdateDocuments);
        let resolved = match self.resolve(&document.fields) {
            Some(resolved) => resolved,
            None => {
                return Err(UserError::AttributeLimitReached);
            },
        };
        let ghost fields = self.fields_ids_map@;
        let ghost newer = resolved@;
        proof {
            self.fields_ids_map.lemma_wf();
            index.lemma_wf();
            assert(fields.no_duplicates());
            assert(index.fields().is_prefix_of(fields)) by {
                assert(index.fields().is_prefix_of(before@.fields));
                assert(before@.fields.is_prefix_of(fields));
                assert(index.fields() =~= fields.subrange(0, index.fields().len() as int)) by {
                    assert(before@.fields =~= fields.subrange(0, before@.fields.len() as int));
                    assert(index.fields() =~= before@.fields.subrange(
                        0,
                        index.fields().len() as int,
                    ));
                }
            }
        }
        let planned: Option<usize> = match self.slots.get(document.external_id.as_slice()) {
            Some(Some(at)) => Some(*at),
            _ => None,
        };
        let touched = self.slots.contains_key(document.external_id.as_slice());
        match planned {
            Some(at) => {
                let ghost current = before.documents@[at as int];
                if update {
                    let mut taken: Option<Document> = None;
                    core::mem::swap(&mut self.documents[at].document, &mut taken);
                    let mut base = taken.unwrap();
                    base.update_with(&resolved);
                    let mut kept = Some(base);
                    core::mem::swap(&mut self.documents[at].document, &mut kept);
                } else {
                    let mut kept = Some(resolved);
                    core::mem::swap(&mut self.documents[at].document, &mut kept);
                }
                proof {
                    let expected = state_after_addition(index, before.method, before@, name, raw);
                    assert(is_planned(before@, name));
                    assert(self.documents@.len() == before.documents@.len());
                    assert(self.documents@[at as int].id == current.id);
                    assert(self.documents@[at as int].external_id == current.external_id);
                    assert(self.documents@[at as int].document.unwrap()@ == merged(
                        before.method,
                        Some(current.document.unwrap()@),
                        newer,
                    ));
                    assert forall|other: int|
                        0 <= other < self.documents@.len() && other != at implies self.documents@[other]
                        == before.documents@[other] by {}
                    assert forall|other: Seq<u8>| #[trigger]
                        self@.pending.contains_key(other) implies self@.pending[other]
                        == expected->Ok_0.pending[other] by {
                        if other != name {
                            match before.slots@[other] {
                                Some(there) => {
                                    assert(before.documents@[there as int].external_id@ == other);
                                    assert(there != at);
                                },
                                None => {},
                            }
                        }
                    }
                    assert(self@.pending =~= expected->Ok_0.pending);
                    assert(self@ == expected->Ok_0);
                    assert forall|other: Seq<u8>| #[trigger] is_planned(self@, other) implies {
                        let id = self@.pending[other].unwrap().id;
                        &&& self@.used.contains(id)
                        &&& id < self@.cursor
                        &&& !index.live().contains(id)
                        &&& !index.soft_deleted().contains(id)
                    } by {
                        assert(is_planned(before@, other));
                    }
                    assert forall|a: Seq<u8>, b: Seq<u8>|
                        #![trigger is_planned(self@, a), is_planned(self@, b)]
                        is_planned(self@, a) && is_planned(self@, b) && a
                            != b implies self@.pending[a].unwrap().id != self@.pending[b].unwrap().id by {
                        assert(is_planned(before@, a) && is_planned(before@, b));
                    }
                    assert(state_fits(self@, index));
                }
                Ok(())
            },
            None => {
                let id = match self.allocate() {
                    Some(id) => id,
                    None => {
                        return Err(UserError::DocumentLimitReached);
                    },
                };
                let mut kept = resolved;
                let mut replaces: Option<DocumentId> = None;
                if !touched {
                    match index.internal_id(document.external_id.as_slice()) {
                        Some(stored) => {
                            replaces = Some(stored);
                            let _ = bitmap_insert(&mut self.replaced_documents_ids, stored);
                            if update {
                                match index.document(stored) {
                                    Some(older) => {
                                        let mut base = older.copy();
                                        base.update_with(&kept);
                                        kept = base;
                                    },
                                    None => {},
                                }
                            }
                        },
                        None => {},
                    }
                }
                let at = self.documents.len();
                let ghost stored_document = kept@;
                self.documents.push(
                    NewDocument {
                        id,
                        external_id: copy_bytes(document.external_id.as_slice()),
                        document: Some(kept),
                    },
                );
                let _ = self.slots.insert(copy_bytes(document.external_id.as_slice()), Some(at));
                proof {
                    let expected = state_after_addition(index, before.method, before@, name, raw);
                    assert(!is_planned(before@, name));
                    assert(expected is Ok);
                    assert(self.documents@ =~= before.documents@.push(self.documents@[at as int]));
                    assert forall|other: Seq<u8>| #[trigger]
                        self@.pending.contains_key(other) implies self@.pending[other]
                        == expected->Ok_0.pending[other] by {
                        if other != name {
                            match before.slots@[other] {
                                Some(there) => {
                                    assert(self.documents@[there as int]
                                        == before.documents@[there as int]);
                                },
                                None => {},
                            }
                        }
                    }
                    assert(self@.pending =~= expected->Ok_0.pending);
                    assert(self@.replaced =~= expected->Ok_0.replaced);
                    assert(self@ == expected->Ok_0);
                    assert forall|other: Seq<u8>| #[trigger] is_planned(self@, other) implies {
                        let planned_id = self@.pending[other].unwrap().id;
                        &&& self@.used.contains(planned_id)
                        &&& planned_id < self@.cursor
                        &&& !index.live().contains(planned_id)
                        &&& !index.soft_deleted().contains(planned_id)
                    } by {
                        if other != name {
                            assert(is_planned(before@, other));
                        }
                    }
                    assert forall|a: Seq<u8>, b: Seq<u8>|
                        #![trigger is_planned(self@, a), is_planned(self@, b)]
                        is_planned(self@, a) && is_planned(self@, b) && a
                            != b implies self@.pending[a].unwrap().id != self@.pending[b].unwrap().id by {
                        if a != name {
                            assert(is_planned(before@, a));
                        }
                        if b != name {
                            assert(is_planned(before@, b));
                        }
                    }
                    assert forall|stored: DocumentId| #[trigger]
                        self@.replaced.contains(stored) implies index.live().contains(stored)
                        && self@.pending.contains_key(index.external_id_of(stored)) by {
                        if before@.replaced.contains(stored) {
                            assert(before@.pending.contains_key(index.external_id_of(stored)));
                        }
                    }
                    assert(state_fits(self@, index));
                    assert forall|there: int|
                        0 <= there < self.documents@.len() && (
                        #[trigger] self.documents@[there]).document.is_some()
                        implies self.slots@.contains_key(self.documents@[there].external_id@)
                        && self.slots@[self.documents@[there].external_id@] == Some(
                        there as usize,
                    ) by {
                        if there < at {
                            assert(self.documents@[there] == before.documents@[there]);
                            assert(before.slots@[before.documents@[there].external_id@] == Some(
                                there as usize,
                            ));
                            assert(before.documents@[there].external_id@ != name);
                        }
                    }
                    assert forall|other: Seq<u8>| #[trigger]
                        self.slots@.contains_key(other) implies match self.slots@[other] {
                        Some(there) => {
                            &&& there < self.documents@.len()
                            &&& self.documents@[there as int].external_id@ == other
                            &&& self.documents@[there as int].document.is_some()
                            &&& self.documents@[there as int].document.unwrap().wf()
                        },
                        None => true,
                    } by {
                        if other != name {
                            assert(before.slots@.contains_key(other));
                            match before.slots@[other] {
                                Some(there) => {
                                    assert(self.documents@[there as int]
                                        == before.documents@[there as int]);
                                },
                                None => {},
                            }
                        }
                    }
                }
                Ok(())
            },
        }
    }

    /// Reads a batch of documents, one after the other. The caller is
    /// asked before each document whether to go on.
    pub fn read_documents<FA: Fn() -> bool>(
        &mut self,
        index: &Index,
        documents: &Vec<EnrichedDocument>,
        should_abort: &FA,
    ) -> (result: Result<usize, Error>)
        requires
            old(self).wf_for(index),
            call_requires(*should_abort, ()),
        ensures
            final(self).method() == old(self).method(),
            match result {
                Ok(count) => {
                    &&& count == documents@.len()
                    &&& final(self).wf_for(index)
                    &&& state_after_batch(
                        index,
                        old(self).method(),
                        old(self)@,
                        document_views(documents@),
                    ) == Ok::<TransformState, UserError>(final(self)@)
                    &&& documents@.len() > 0 ==> may_continue(should_abort)
                },
                Err(Error::UserError(fault)) => may_continue(should_abort) && state_after_batch(
                    index,
                    old(self).method(),
                    old(self)@,
                    document_views(documents@),
                ) == Err::<TransformState, UserError>(fault),
                Err(Error::InternalError(InternalError::AbortedIndexation)) => may_abort(
                    should_abort,
                ) && documents@.len() > 0,
            },
            documents@.len() == 0 ==> result == Ok::<usize, Error>(0) && *final(self) == *old(self),
    {
        let ghost views = document_views(documents@);
        let mut n: usize = 0;
        proof {
            assert(views.subrange(0, 0) =~= Seq::<(Seq<u8>, Seq<(Seq<u8>, Seq<u8>)>)>::empty());
        }
        while n < documents.len()
            invariant
                n <= documents@.len(),
                views == document_views(documents@),
                call_requires(*should_abort, ()),
                self.wf_for(index),
                self.method() == old(self).method(),
                state_after_batch(index, old(self).method(), old(self)@, views.subrange(0, n as int))
                    == Ok::<TransformState, UserError>(self@),
                n > 0 ==> may_continue(should_abort),
                n == 0 ==> *self == *old(self),
            decreases documents@.len() - n,
        {
            if should_abort() {
                return Err(Error::InternalError(InternalError::AbortedIndexation));
            }
            proof {
                assert(views.subrange(0, n + 1).drop_last() =~= views.subrange(0, n as int));
                assert(views.subrange(0, n + 1).last() == views[n as int]);
            }
            match self.add_document(index, &documents[n]) {
                Ok(()) => {},
                Err(fault) => {
                    proof {
                        lemma_fault_stays(
                            index,
                            old(self).method(),
                            old(self)@,
                            views.subrange(0, n + 1),
                            views,
                        );
                    }
                    return Err(Error::UserError(fault));
                },
            }
            n += 1;
        }
        proof {
            assert(views.subrange(0, n as int) =~= views);
        }
        Ok(n)
    }

    /// Removes the document that its sender named `name` and tells whether
    /// there was one to remove.
    pub fn remove_document(&mut self, index: &Index, name: &[u8]) -> (removed: bool)
        requires
            old(self).wf_for(index),
        ensures
            final(self).wf_for(index),
            final(self).method() == old(self).method(),
            removed == removal_counts(old(self)@, index, name@),
            final(self)@ == state_after_removal(old(self)@, index, name@),
    {
        let ghost before = *self;
        proof {
            index.lemma_wf();
        }
        let planned: Option<usize> = match self.slots.get(name) {
            Some(Some(at)) => Some(*at),
            _ => None,
        };
        let touched = self.slots.contains_key(name);
        match planned {
            Some(at) => {
                let mut taken: Option<Document> = None;
                core::mem::swap(&mut self.documents[at].document, &mut taken);
                let _ = self.slots.insert(copy_bytes(name), None);
                proof {
                    let expected = state_after_removal(before@, index, name@);
                    assert forall|other: int|
                        0 <= other < self.documents@.len() && other != at implies self.documents@[other]
                        == before.documents@[other] by {}
                    assert forall|other: Seq<u8>| #[trigger]
                        self@.pending.contains_key(other) implies self@.pending[other]
                        == expected.pending[other] by {
                        if other != name@ {
                            match before.slots@[other] {
                                Some(there) => {
                                    assert(before.documents@[there as int].external_id@ == other);
                                    assert(there != at);
                                },
                                None => {},
                            }
                        }
                    }
                    assert(self@.pending =~= expected.pending);
                    assert(self@ == expected);
                    assert forall|other: Seq<u8>| #[trigger] is_planned(self@, other) implies {
                        let id = self@.pending[other].unwrap().id;
                        &&& self@.used.contains(id)
                        &&& id < self@.cursor
                        &&& !index.live().contains(id)
                        &&& !index.soft_deleted().contains(id)
                    } by {
                        assert(is_planned(before@, other));
                    }
                    assert forall|a: Seq<u8>, b: Seq<u8>|
                        #![trigger is_planned(self@, a), is_planned(self@, b)]
                        is_planned(self@, a) && is_planned(self@, b) && a
                            != b implies self@.pending[a].unwrap().id != self@.pending[b].unwrap().id by {
                        assert(is_planned(before@, a) && is_planned(before@, b));
                    }
                    assert forall|stored: DocumentId| #[trigger]
                        self@.replaced.contains(stored) implies index.live().contains(stored)
                        && self@.pending.contains_key(index.external_id_of(stored)) by {
                        assert(before@.pending.contains_key(index.external_id_of(stored)));
                    }
                    assert(state_fits(self@, index));
                    assert forall|there: int|
                        0 <= there < self.documents@.len() && (
                        #[trigger] self.documents@[there]).document.is_some()
                        implies self.slots@.contains_key(self.documents@[there].external_id@)
                        && self.slots@[self.documents@[there].external_id@] == Some(
                        there as usize,
                    ) by {
                        if there != at {
                            assert(self.documents@[there] == before.documents@[there]);
                            assert(before.slots@[before.documents@[there].external_id@] == Some(
                                there as usize,
                            ));
                            assert(before.slots@[name@] == Some(at));
                            assert(before.documents@.len() == before.documents.len());
                            assert(before.documents@[there].external_id@ != name@);
                        }
                    }
                    assert forall|other: Seq<u8>| #[trigger]
                        self.slots@.contains_key(other) implies match self.slots@[other] {
                        Some(there) => {
                            &&& there < self.documents@.len()
                            &&& self.documents@[there as int].external_id@ == other
                            &&& self.documents@[there as int].document.is_some()
                            &&& self.documents@[there as int].document.unwrap().wf()
                        },
                        None => true,
                    } by {
                        if other != name@ {
                            assert(before.slots@.contains_key(other));
                            match before.slots@[other] {
                                Some(there) => {
                                    assert(before.documents@[there as int].external_id@ == other);
                                    assert(there != at);
                                },
                                None => {},
                            }
                        }
                    }
                }
                true
            },
            None => {
                if touched {
                    proof {
                        assert(self@ == state_after_removal(before@, index, name@));
                    }
                    return false;
                }
                match index.internal_id(name) {
                    Some(stored) => {
                        let _ = bitmap_insert(&mut self.replaced_documents_ids, stored);
                        let _ = self.slots.insert(copy_bytes(name), None);
                        proof {
                            let expected = state_after_removal(before@, index, name@);
                            assert forall|other: Seq<u8>| #[trigger]
                                self@.pending.contains_key(other) implies self@.pending[other]
                                == expected.pending[other] by {}
                            assert(self@.pending =~= expected.pending);
                            assert(self@ == expected);
                            assert forall|other: Seq<u8>| #[trigger] is_planned(self@, other) implies {
                                let id = self@.pending[other].unwrap().id;
                                &&& self@.used.contains(id)
                                &&& id < self@.cursor
                                &&& !index.live().contains(id)
                                &&& !index.soft_deleted().contains(id)
                            } by {
                                assert(is_planned(before@, other));
                            }
                            assert forall|a: Seq<u8>, b: Seq<u8>|
                                #![trigger is_planned(self@, a), is_planned(self@, b)]
                                is_planned(self@, a) && is_planned(self@, b) && a
                                    != b implies self@.pending[a].unwrap().id
                                != self@.pending[b].unwrap().id by {
                                assert(is_planned(before@, a) && is_planned(before@, b));
                            }
                            assert forall|gone: DocumentId| #[trigger]
                                self@.replaced.contains(gone) implies index.live().contains(gone)
                                && self@.pending.contains_key(index.external_id_of(gone)) by {
                                if before@.replaced.contains(gone) {
                                    assert(before@.pending.contains_key(index.external_id_of(gone)));
                                }
                            }
                            assert(state_fits(self@, index));
                            assert forall|there: int|
                                0 <= there < self.documents@.len() && (
                                #[trigger] self.documents@[there]).document.is_some()
                                implies self.slots@.contains_key(self.documents@[there].external_id@)
                                && self.slots@[self.documents@[there].external_id@] == Some(
                                there as usize,
                            ) by {
                                assert(before.slots@[before.documents@[there].external_id@] == Some(
                                    there as usize,
                                ));
                            }
                        }
                        true
                    },
                    None => {
                        proof {
                            assert(self@ == state_after_removal(before@, index, name@));
                        }
                        false
                    },
                }
            },
        }
    }

    /// Removes the documents that their senders named `names`, one after
    /// the other, and tells how many there were to remove. The caller is
    /// asked before each removal whether to go on.
    pub fn remove_documents<FA: Fn() -> bool>(
        &mut self,
        index: &Index,
        names: &Vec<Vec<u8>>,
        should_abort: &FA,
    ) -> (result: Result<usize, Error>)
        requires
            old(self).wf_for(index),
            call_requires(*should_abort, ()),
        ensures
            final(self).method() == old(self).method(),
            match result {
                Ok(count) => {
                    &&& count == removals_counted(old(self)@, index, names@)
                    &&& final(self).wf_for(index)
                    &&& final(self)@ == state_after_removals(old(self)@, index, names@)
                    &&& names@.len() > 0 ==> may_continue(should_abort)
                },
                Err(Error::InternalError(InternalError::AbortedIndexation)) => may_abort(
                    should_abort,
                ) && names@.len() > 0,
                Err(_) => false,
            },
            names@.len() == 0 ==> result == Ok::<usize, Error>(0) && *final(self) == *old(self),
    {
        let mut n: usize = 0;
        let mut count: usize = 0;
        proof {
            assert(names@.subrange(0, 0) =~= Seq::<Vec<u8>>::empty());
        }
        while n < names.len()
            invariant
                n <= names@.len(),
                count <= n,
                call_requires(*should_abort, ()),
                self.wf_for(index),
                self.method() == old(self).method(),
                self@ == state_after_removals(old(self)@, index, names@.subrange(0, n as int)),
                count == removals_counted(old(self)@, index, names@.subrange(0, n as int)),
                n > 0 ==> may_continue(should_abort),
                n == 0 ==> *self == *old(self) && count == 0,
            decreases names@.len() - n,
        {
            if should_abort() {
                return Err(Error::InternalError(InternalError::AbortedIndexation));
            }
            proof {
                assert(names@.subrange(0, n + 1).drop_last() =~= names@.subrange(0, n as int));
                assert(names@.subrange(0, n + 1).last() == names@[n as int]);
            }
            if self.remove_document(index, names[n].as_slice()) {
                count += 1;
            }
            n += 1;
        }
        proof {
            assert(names@.subrange(0, n as int) =~= names@);
        }
        Ok(count)
    }

    /// Ends the reading: hands out the planned documents in the order of
    /// their ids, with the catalogue and the ids of the documents that they
    /// replace.
    pub fn output_from_sorter(
        self,
        index: &Index,
        primary_key: Option<Vec<u8>>,
        documents_count: usize,
    ) -> (output: TransformOutput)
        requires
            self.wf_for(index),
        ensures
            output.fits(index),
            output.realizes(self@),
            output.primary_key == primary_key,
            output.documents_count == documents_count,
    {
        let ghost before = self;
        let mut this = self;
        let mut documents: Vec<StoredDocument> = Vec::new();
        let mut new_documents_ids = bitmap_new();
        let ghost mut origin: Seq<int> = Seq::empty();
        let mut at: usize = 0;
        while at < this.documents.len()
            invariant
                before.wf_for(index),
                at <= this.documents@.len(),
                this.documents@.len() == before.documents@.len(),
                this.fields_ids_map == before.fields_ids_map,
                this.replaced_documents_ids == before.replaced_documents_ids,
                forall|p: int| at <= p < this.documents@.len()
                    ==> this.documents@[p] == before.documents@[p],
                origin.len() == documents@.len(),
                forall|n: int| 0 <= n < origin.len() ==> 0 <= #[trigger] origin[n] < at,
                forall|a: int, b: int| 0 <= a < b < origin.len() ==> origin[a] < origin[b],
                forall|n: int|
                    #![trigger origin[n]]
                    0 <= n < origin.len() ==> {
                        &&& before.documents@[origin[n]].document.is_some()
                        &&& documents@[n].id == before.documents@[origin[n]].id
                        &&& documents@[n].external_id@ == before.documents@[origin[n]].external_id@
                        &&& documents@[n].document == before.documents@[origin[n]].document.unwrap()
                    },
                forall|p: int|
                    0 <= p < at && (#[trigger] before.documents@[p]).document.is_some()
                        ==> exists|n: int|
                        0 <= n < origin.len() && origin[n] == p,
                forall|id: DocumentId| #[trigger]
                    bitmap_ids(new_documents_ids).contains(id) <==> exists|n: int|
                        0 <= n < documents@.len() && (#[trigger] documents@[n]).id == id,
            decreases this.documents@.len() - at,
        {
            let mut taken: Option<Document> = None;
            let ghost source = this.documents@[at as int];
            let ghost untouched = this.documents@;
            core::mem::swap(&mut this.documents[at].document, &mut taken);
            proof {
                assert(source == before.documents@[at as int]);
                assert(taken == source.document);
                assert(this.documents@[at as int].id == source.id);
                assert(this.documents@[at as int].external_id == source.external_id);
                assert forall|p: int| at + 1 <= p < this.documents@.len() implies this.documents@[p]
                    == before.documents@[p] by {
                    assert(this.documents@[p] == untouched[p]);
                }
            }
            match taken {
                Some(document) => {
                    let id = this.documents[at].id;
                    let external_id = copy_bytes(this.documents[at].external_id.as_slice());
                    let ghost earlier = documents@;
                    let ghost ids = bitmap_ids(new_documents_ids);
                    documents.push(StoredDocument { id, external_id, document });
                    let _ = bitmap_insert(&mut new_documents_ids, id);
                    proof {
                        let longer = origin.push(at as int);
                        assert forall|n: int|
                            #![trigger longer[n]]
                            0 <= n < longer.len() implies {
                            &&& before.documents@[longer[n]].document.is_some()
                            &&& documents@[n].id == before.documents@[longer[n]].id
                            &&& documents@[n].external_id@ == before.documents@[longer[n]].external_id@
                            &&& documents@[n].document == before.documents@[longer[n]].document.unwrap()
                        } by {
                            if n < origin.len() {
                                assert(documents@[n] == earlier[n]);
                                assert(longer[n] == origin[n]);
                            }
                        }
                        assert forall|p: int|
                            0 <= p < at + 1 && (#[trigger] before.documents@[p]).document.is_some()
                            implies exists|n: int| 0 <= n < longer.len() && longer[n] == p by {
                            if p < at {
                                let n = choose|n: int| 0 <= n < origin.len() && origin[n] == p;
                                assert(longer[n] == p);
                            } else {
                                assert(longer[origin.len() as int] == p);
                            }
                        }
                        assert forall|other: DocumentId| #[trigger]
                            bitmap_ids(new_documents_ids).contains(other) <==> exists|n: int|
                                0 <= n < documents@.len() && (#[trigger] documents@[n]).id == other by {
                            if ids.contains(other) {
                                let n = choose|n: int|
                                    0 <= n < earlier.len() && (#[trigger] earlier[n]).id == other;
                                assert(documents@[n].id == other);
                            }
                            if other == id {
                                assert(documents@[earlier.len() as int].id == other);
                            }
                            if exists|n: int|
                                0 <= n < documents@.len() && (#[trigger] documents@[n]).id == other {
                                let n = choose|n: int|
                                    0 <= n < documents@.len() && (#[trigger] documents@[n]).id == other;
                                if n < earlier.len() {
                                    assert(earlier[n].id == other);
                                }
                            }
                        }
                        origin = longer;
                    }
                },
                None => {},
            }
            at += 1;
        }
        let output = TransformOutput {
            primary_key,
            fields_ids_map: this.fields_ids_map,
            new_documents_ids,
            replaced_documents_ids: this.replaced_documents_ids,
            documents_count,
            documents,
        };
        proof {
            index.lemma_wf();
            let state = before@;
            assert forall|n: int| 0 <= n < output.documents@.len() implies is_planned(
                state,
                (#[trigger] output.documents@[n]).external_id@,
            ) && state.pending[output.documents@[n].external_id@].unwrap() == (Planned {
                id: output.documents@[n].id,
                document: output.documents@[n].document@,
            }) by {
                let source = before.documents@[origin[n]];
                assert(0 <= origin[n] < before.documents@.len());
                assert(source.document.is_some());
                assert(before.slots@.contains_key(source.external_id@));
                assert(before.slots@[source.external_id@] == Some(origin[n] as usize));
            }
            assert forall|name: Seq<u8>| #[trigger] is_planned(state, name) implies exists|n: int|
                0 <= n < output.documents@.len() && (#[trigger] output.documents@[n]).external_id@
                    == name by {
                let p = before.slots@[name].unwrap();
                assert(before.documents@[p as int].document.is_some());
                let n = choose|n: int| 0 <= n < origin.len() && origin[n] == p as int;
                assert(output.documents@[n].external_id@ == name);
            }
            assert forall|a: int, b: int| 0 <= a < b < output.documents@.len() implies (
            #[trigger] output.documents@[a]).id < (#[trigger] output.documents@[b]).id
                && output.documents@[a].external_id@ != output.documents@[b].external_id@ by {
                assert(origin[a] < origin[b]);
                assert(before.documents@[origin[a]].id < before.documents@[origin[b]].id);
                assert(is_planned(state, output.documents@[a].external_id@));
                assert(is_planned(state, output.documents@[b].external_id@));
            }
            assert forall|n: int| 0 <= n < output.documents@.len() implies (
            #[trigger] output.documents@[n]).document.wf() && !index.live().contains(
                output.documents@[n].id,
            ) && !index.soft_deleted().contains(output.documents@[n].id) && (
            index.external_ids().contains_key(output.documents@[n].external_id@)
                ==> bitmap_ids(output.replaced_documents_ids).contains(
                index.external_ids()[output.documents@[n].external_id@],
            )) by {
                let source = before.documents@[origin[n]];
                assert(0 <= origin[n] < before.documents@.len());
                assert(source.document.is_some());
                assert(before.slots@.contains_key(source.external_id@));
                assert(before.slots@[source.external_id@] == Some(origin[n] as usize));
                assert(is_planned(state, output.documents@[n].external_id@));
            }
            assert(output.fields_ids_map.wf());
            assert(index.fields().is_prefix_of(output.fields_ids_map@));
            assert forall|id: DocumentId| #[trigger]
                bitmap_ids(output.replaced_documents_ids).contains(id) implies index.live().contains(
                id,
            ) by {
                assert(state.replaced.contains(id));
            }
            assert forall|id: DocumentId| #[trigger]
                bitmap_ids(output.new_documents_ids).contains(id) <==> exists|n: int|
                    0 <= n < output.documents@.len() && (#[trigger] output.documents@[n]).id == id by {}
        }
        output
    }
}

/// The caller may answer that the work is to stop.
pub open spec fn may_abort<FA: Fn() -> bool>(should_abort: &FA) -> bool {
    call_ensures(*should_abort, (), true)
}

/// The caller may answer that the work is to go on.
pub open spec fn may_continue<FA: Fn() -> bool>(should_abort: &FA) -> bool {
    call_ensures(*should_abort, (), false)
}

/// Once a document of a batch could not be read, the documents after it
/// change nothing.
pub proof fn lemma_fault_stays(
    index: &Index,
    method: IndexDocumentsMethod,
    state: TransformState,
    fewer: Seq<(Seq<u8>, Seq<(Seq<u8>, Seq<u8>)>)>,
    more: Seq<(Seq<u8>, Seq<(Seq<u8>, Seq<u8>)>)>,
)
    requires
        fewer.is_prefix_of(more),
        state_after_batch(index, method, state, fewer) is Err,
    ensures
        state_after_batch(index, method, state, more) == state_after_batch(
            index,
            method,
            state,
            fewer,
        ),
    decreases more.len(),
{
    if fewer.len() < more.len() {
        assert(fewer.is_prefix_of(more.drop_last()));
        lemma_fault_stays(index, method, state, fewer, more.drop_last());
    } else {
        assert(fewer =~= more);
    }
}

/// A catalogue does not shrink when more names arrive.
pub proof fn lemma_catalogue_grows(fields: Seq<Seq<u8>>, fewer: Seq<Seq<u8>>, more: Seq<Seq<u8>>)
    requires
        fewer.is_prefix_of(more),
    ensures
        catalogue_with(fields, fewer).len() <= catalogue_with(fields, more).len(),
        fields.len() <= catalogue_with(fields, fewer).len(),
    decreases more.len(),
{
    if fewer.len() > 0 {
        lemma_catalogue_grows(fields, fewer.drop_last(), fewer.drop_last());
    }
    if fewer.len() < more.len() {
        assert(fewer.is_prefix_of(more.drop_last()));
        lemma_catalogue_grows(fields, fewer, more.drop_last());
    } else {
        assert(fewer =~= more);
    }
}

} // verus!
