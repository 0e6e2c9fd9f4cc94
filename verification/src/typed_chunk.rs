//! Typed chunks: what the extraction hands to the writer, tagged with the
//! database that it is meant for.

use crate::bitmap::{bitmap_ids, bitmap_insert, bitmap_new};
use crate::documents::DocumentId;
use crate::extract::{Database, StoredDocument};
use crate::facet_values::FacetValues;
use crate::index::Index;
use crate::postings::Postings;
use roaring::RoaringBitmap;
use vstd::prelude::*;

verus! {

/// One chunk of extracted data, tagged with its destination.
pub enum TypedChunk {
    /// Documents for the documents database.
    Documents(Vec<StoredDocument>),
    WordDocids(Postings),
    ExactWordDocids(Postings),
    WordFidDocids(Postings),
    WordPositionDocids(Postings),
    WordPairProximityDocids(Postings),
    FieldIdFacetExistsDocids(Postings),
    FieldIdFacetIsNullDocids(Postings),
    FieldIdFacetIsEmptyDocids(Postings),
    FieldIdFacetStringDocids(Postings),
    /// The strings of the filterable fields, document by document: what
    /// is written under a key takes the place of what was there.
    FieldIdDocidFacetStrings(FacetValues),
}

/// The documents `documents[from..]` can be stored in `index`: their ids
/// are free, no document of the index has one of their identifiers, and
/// no id or identifier occurs twice among them.
pub open spec fn can_store(index: &Index, documents: Seq<StoredDocument>, from: int) -> bool {
    &&& forall|n: int|
        from <= n < documents.len() ==> {
            &&& (#[trigger] documents[n]).document.wf()
            &&& !index.live().contains(documents[n].id)
            &&& !index.soft_deleted().contains(documents[n].id)
            &&& !index.external_ids().contains_key(documents[n].external_id@)
        }
    &&& forall|a: int, b: int|
        from <= a < b < documents.len() ==> (#[trigger] documents[a]).id != (
        #[trigger] documents[b]).id && documents[a].external_id@ != documents[b].external_id@
}

/// The ids of the documents `documents[from..]`.
pub open spec fn ids_from(documents: Seq<StoredDocument>, from: int) -> Set<DocumentId> {
    Set::new(
        |id: DocumentId|
            exists|n: int| from <= n < documents.len() && 0 <= n && (#[trigger] documents[n]).id == id,
    )
}

/// `after` is `before` with the documents `documents[from..]` stored.
pub open spec fn stored(before: &Index, after: &Index, documents: Seq<StoredDocument>, from: int) -> bool {
    &&& after.wf()
    &&& after.live() == before.live().union(ids_from(documents, from))
    &&& after.soft_deleted() == before.soft_deleted()
    &&& forall|n: int|
        from <= n < documents.len() && 0 <= n ==> {
            &&& after.documents()[(#[trigger] documents[n]).id] == documents[n].document@
            &&& after.external_id_of(documents[n].id) == documents[n].external_id@
            &&& after.external_ids().contains_key(documents[n].external_id@)
            &&& after.external_ids()[documents[n].external_id@] == documents[n].id
        }
    &&& forall|id: DocumentId|
        before.live().contains(id) ==> #[trigger] after.documents()[id] == before.documents()[id]
            && after.external_id_of(id) == before.external_id_of(id)
    &&& forall|name: Seq<u8>| #[trigger]
        after.external_ids().contains_key(name) <==> before.external_ids().contains_key(name) || (
        exists|n: int|
            from <= n < documents.len() && 0 <= n && (#[trigger] documents[n]).external_id@ == name)
    &&& forall|name: Seq<u8>|
        before.external_ids().contains_key(name) ==> #[trigger] after.external_ids()[name]
            == before.external_ids()[name]
    &&& after.same_catalogue(before)
    &&& after.same_postings(before)
    &&& after.same_prefixes(before)
    &&& after.facet_values() == before.facet_values()
}

impl TypedChunk {
    /// The database that a chunk of postings is meant for; none for a
    /// chunk of documents.
    pub open spec fn destination(&self) -> Option<Database> {
        match self {
            TypedChunk::Documents(_) => None,
            TypedChunk::FieldIdDocidFacetStrings(_) => None,
            TypedChunk::WordDocids(_) => Some(Database::WordDocids),
            TypedChunk::ExactWordDocids(_) => Some(Database::ExactWordDocids),
            TypedChunk::WordFidDocids(_) => Some(Database::WordFidDocids),
            TypedChunk::WordPositionDocids(_) => Some(Database::WordPositionDocids),
            TypedChunk::WordPairProximityDocids(_) => Some(Database::WordPairProximityDocids),
            TypedChunk::FieldIdFacetExistsDocids(_) => Some(Database::FacetIdExistsDocids),
            TypedChunk::FieldIdFacetIsNullDocids(_) => Some(Database::FacetIdIsNullDocids),
            TypedChunk::FieldIdFacetIsEmptyDocids(_) => Some(Database::FacetIdIsEmptyDocids),
            TypedChunk::FieldIdFacetStringDocids(_) => Some(Database::FacetIdStringDocids),
        }
    }

    /// The postings that a chunk carries; none for a chunk of documents.
    pub open spec fn postings(&self) -> Option<Postings> {
        match self {
            TypedChunk::Documents(_) => None,
            TypedChunk::FieldIdDocidFacetStrings(_) => None,
            TypedChunk::WordDocids(postings) => Some(*postings),
            TypedChunk::ExactWordDocids(postings) => Some(*postings),
            TypedChunk::WordFidDocids(postings) => Some(*postings),
            TypedChunk::WordPositionDocids(postings) => Some(*postings),
            TypedChunk::WordPairProximityDocids(postings) => Some(*postings),
            TypedChunk::FieldIdFacetExistsDocids(postings) => Some(*postings),
            TypedChunk::FieldIdFacetIsNullDocids(postings) => Some(*postings),
            TypedChunk::FieldIdFacetIsEmptyDocids(postings) => Some(*postings),
            TypedChunk::FieldIdFacetStringDocids(postings) => Some(*postings),
        }
    }

    /// The chunk that carries `postings` to `database`.
    pub fn from_postings(database: Database, postings: Postings) -> (chunk: TypedChunk)
        ensures
            chunk.destination() == Some(database),
            chunk.postings() == Some(postings),
    {
        match database {
            Database::WordDocids => TypedChunk::WordDocids(postings),
            Database::ExactWordDocids => TypedChunk::ExactWordDocids(postings),
            Database::WordFidDocids => TypedChunk::WordFidDocids(postings),
            Database::WordPositionDocids => TypedChunk::WordPositionDocids(postings),
            Database::WordPairProximityDocids => TypedChunk::WordPairProximityDocids(postings),
            Database::FacetIdExistsDocids => TypedChunk::FieldIdFacetExistsDocids(postings),
            Database::FacetIdIsNullDocids => TypedChunk::FieldIdFacetIsNullDocids(postings),
            Database::FacetIdIsEmptyDocids => TypedChunk::FieldIdFacetIsEmptyDocids(postings),
            Database::FacetIdStringDocids => TypedChunk::FieldIdFacetStringDocids(postings),
        }
    }

    /// The chunk can be written into `index`.
    pub open spec fn fits(&self, index: &Index) -> bool {
        match self {
            TypedChunk::Documents(documents) => can_store(index, documents@, 0),
            TypedChunk::FieldIdDocidFacetStrings(values) => values.wf(),
            _ => self.postings().unwrap().wf(),
        }
    }
}

fn store_documents(index: &mut Index, documents: Vec<StoredDocument>) -> (docids: RoaringBitmap)
    requires
        old(index).wf(),
        can_store(old(index), documents@, 0),
    ensures
        stored(old(index), final(index), documents@, 0),
        bitmap_ids(docids) == ids_from(documents@, 0),
{
    let ghost all = documents@;
    let mut rest = documents;
    let mut docids = bitmap_new();
    proof {
        assert(ids_from(all, all.len() as int) =~= Set::<DocumentId>::empty());
        assert(index.live().union(ids_from(all, all.len() as int)) =~= index.live());
    }
    while rest.len() > 0
        invariant
            rest@ == all.subrange(0, rest@.len() as int),
            rest@.len() <= all.len(),
            old(index).wf(),
            can_store(old(index), all, 0),
            stored(old(index), index, all, rest@.len() as int),
            bitmap_ids(docids) == ids_from(all, rest@.len() as int),
        decreases rest@.len(),
    {
        let ghost before = *index;
        let ghost at = rest@.len() - 1;
        let ghost ids = bitmap_ids(docids);
        let document = rest.pop().unwrap();
        proof {
            assert(document == all[at]);
            assert(rest@ =~= all.subrange(0, at));
            if before.live().contains(document.id) {
                assert(ids_from(all, at + 1).contains(document.id));
                let n = choose|n: int|
                    at + 1 <= n < all.len() && 0 <= n && (#[trigger] all[n]).id == document.id;
            }
            if before.external_ids().contains_key(document.external_id@) {
                let n = choose|n: int|
                    at + 1 <= n < all.len() && 0 <= n && (#[trigger] all[n]).external_id@
                        == document.external_id@;
            }
        }
        let id = document.id;
        let _ = bitmap_insert(&mut docids, id);
        index.put_document(id, document.external_id, document.document);
        proof {
            assert(ids_from(all, at) =~= ids_from(all, at + 1).insert(id)) by {
                assert forall|other: DocumentId| #[trigger]
                    ids_from(all, at).contains(other) <==> ids_from(all, at + 1).insert(id).contains(
                        other,
                    ) by {
                    if ids_from(all, at + 1).contains(other) {
                        let n = choose|n: int|
                            at + 1 <= n < all.len() && 0 <= n && (#[trigger] all[n]).id == other;
                        assert(at <= n < all.len() && all[n].id == other);
                    }
                    if other == id {
                        assert(at <= at < all.len() && all[at].id == other);
                    }
                }
            }
            assert(index.live() =~= old(index).live().union(ids_from(all, at)));
            assert forall|n: int| at <= n < all.len() && 0 <= n implies {
                &&& index.documents()[(#[trigger] all[n]).id] == all[n].document@
                &&& index.external_id_of(all[n].id) == all[n].external_id@
                &&& index.external_ids().contains_key(all[n].external_id@)
                &&& index.external_ids()[all[n].external_id@] == all[n].id
            } by {
                if n > at {
                    assert(all[n].id != all[at].id);
                    assert(all[n].external_id@ != all[at].external_id@);
                }
            }
            assert forall|other: DocumentId| old(index).live().contains(other) implies #[trigger]
                index.documents()[other] == old(index).documents()[other] && index.external_id_of(
                other,
            ) == old(index).external_id_of(other) by {
                assert(other != id);
            }
            assert forall|name: Seq<u8>| #[trigger]
                index.external_ids().contains_key(name) <==> old(index).external_ids().contains_key(
                    name,
                ) || (exists|n: int|
                    at <= n < all.len() && 0 <= n && (#[trigger] all[n]).external_id@ == name) by {
                if exists|n: int|
                    at + 1 <= n < all.len() && 0 <= n && (#[trigger] all[n]).external_id@ == name {
                    let n = choose|n: int|
                        at + 1 <= n < all.len() && 0 <= n && (#[trigger] all[n]).external_id@ == name;
                    assert(at <= n < all.len() && all[n].external_id@ == name);
                }
                if name == document.external_id@ {
                    assert(at <= at < all.len() && all[at].external_id@ == name);
                }
                if exists|n: int|
                    at <= n < all.len() && 0 <= n && (#[trigger] all[n]).external_id@ == name {
                    let n = choose|n: int|
                        at <= n < all.len() && 0 <= n && (#[trigger] all[n]).external_id@ == name;
                    if n > at {
                        assert(at + 1 <= n < all.len() && all[n].external_id@ == name);
                    }
                }
            }
            assert forall|name: Seq<u8>|
                old(index).external_ids().contains_key(name) implies #[trigger]
                index.external_ids()[name] == old(index).external_ids()[name] by {
                assert(name != document.external_id@);
            }
        }
    }
    docids
}

/// Writes a chunk into the database that it is meant for, and tells
/// which documents were stored and whether a posting database was merged.
///
/// A chunk of documents is stored as it is. A chunk of postings is merged
/// into its database: a key that the database has gains the documents of
/// the chunk, any other key of the chunk is inserted. A chunk of strings
/// of filterable fields is written over what the index has: under a key
/// of the chunk stands the string of the chunk.
pub fn write_typed_chunk_into_index(typed_chunk: TypedChunk, index: &mut Index) -> (written: (
    RoaringBitmap,
    bool,
))
    requires
        old(index).wf(),
        typed_chunk.fits(old(index)),
    ensures
        final(index).wf(),
        match typed_chunk {
            TypedChunk::Documents(documents) => {
                &&& !written.1
                &&& bitmap_ids(written.0) == ids_from(documents@, 0)
                &&& stored(old(index), final(index), documents@, 0)
            },
            TypedChunk::FieldIdDocidFacetStrings(values) => {
                &&& !written.1
                &&& bitmap_ids(written.0) == Set::<DocumentId>::empty()
                &&& final(index).facet_values() == old(index).facet_values().union_prefer_right(
                    values@,
                )
                &&& final(index).same_catalogue(old(index))
                &&& final(index).same_documents(old(index))
                &&& final(index).same_postings(old(index))
                &&& final(index).same_prefixes(old(index))
            },
            _ => {
                let database = typed_chunk.destination().unwrap();
                let chunk = typed_chunk.postings().unwrap();
                &&& written.1
                &&& bitmap_ids(written.0) == Set::<DocumentId>::empty()
                &&& forall|key: Seq<u8>| #[trigger]
                    final(index).postings(database).docids(key) == old(index).postings(
                        database,
                    ).docids(key).union(chunk.docids(key))
                &&& forall|other: Database|
                    other != database
                        ==> #[trigger] final(index).postings(other) == old(index).postings(other)
                &&& final(index).same_catalogue(old(index))
                &&& final(index).same_documents(old(index))
                &&& final(index).same_prefixes(old(index))
                &&& final(index).facet_values() == old(index).facet_values()
            },
        },
{
    match typed_chunk {
        TypedChunk::Documents(documents) => {
            let docids = store_documents(index, documents);
            (docids, false)
        },
        TypedChunk::WordDocids(postings) => {
            index.merge_into_database(Database::WordDocids, &postings);
            (bitmap_new(), true)
        },
        TypedChunk::ExactWordDocids(postings) => {
            index.merge_into_database(Database::ExactWordDocids, &postings);
            (bitmap_new(), true)
        },
        TypedChunk::WordFidDocids(postings) => {
            index.merge_into_database(Database::WordFidDocids, &postings);
            (bitmap_new(), true)
        },
        TypedChunk::WordPositionDocids(postings) => {
            index.merge_into_database(Database::WordPositionDocids, &postings);
            (bitmap_new(), true)
        },
        TypedChunk::WordPairProximityDocids(postings) => {
            index.merge_into_database(Database::WordPairProximityDocids, &postings);
            (bitmap_new(), true)
        },
        TypedChunk::FieldIdFacetExistsDocids(postings) => {
            index.merge_into_database(Database::FacetIdExistsDocids, &postings);
            (bitmap_new(), true)
        },
        TypedChunk::FieldIdFacetIsNullDocids(postings) => {
            index.merge_into_database(Database::FacetIdIsNullDocids, &postings);
            (bitmap_new(), true)
        },
        TypedChunk::FieldIdFacetIsEmptyDocids(postings) => {
            index.merge_into_database(Database::FacetIdIsEmptyDocids, &postings);
            (bitmap_new(), true)
        },
        TypedChunk::FieldIdFacetStringDocids(postings) => {
            index.merge_into_database(Database::FacetIdStringDocids, &postings);
            (bitmap_new(), true)
        },
        TypedChunk::FieldIdDocidFacetStrings(values) => {
            index.write_facet_values(values);
            (bitmap_new(), false)
        },
    }
}

} // verus!
