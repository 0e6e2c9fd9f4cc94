//! How many documents have each field of the catalogue.

use crate::bitmap::{bitmap_contains, bitmap_ids, bitmap_to_vec, lemma_ids_finite};
use crate::documents::{Document, DocumentId, FieldId};
use crate::extract::StoredDocument;
use crate::fields::MAX_FIELDS;
use crate::index::Index;
use crate::index_documents::{output_applied, IndexDocumentsConfig};
use crate::transform::TransformOutput;
use roaring::RoaringBitmap;
use vstd::prelude::*;

verus! {

/// The documents of `index`, apart from those of `without`, that have a
/// value for `field`.
pub open spec fn holders(index: &Index, without: Set<DocumentId>, field: FieldId) -> Set<
    DocumentId,
> {
    Set::new(
        |id: DocumentId|
            index.live().contains(id) && !without.contains(id) && index.documents()[id].contains_key(
                field,
            ),
    )
}

/// How many of the first `upto` documents have a value for `field`.
pub open spec fn holders_among(documents: Seq<StoredDocument>, field: FieldId, upto: int) -> nat
    decreases upto,
{
    if upto <= 0 {
        0
    } else {
        holders_among(documents, field, upto - 1) + if documents[upto - 1].document@.contains_key(
            field,
        ) {
            1nat
        } else {
            0nat
        }
    }
}

/// `counts` tells for each of the first `fields` field ids how many
/// documents have a value for it, among the documents of `index` apart
/// from those of `without`, and among `documents`.
pub open spec fn is_distribution(
    counts: Seq<u64>,
    index: &Index,
    without: Set<DocumentId>,
    documents: Seq<StoredDocument>,
    fields: nat,
) -> bool {
    &&& counts.len() == fields
    &&& forall|field: FieldId|
        (field as int) < fields ==> #[trigger] counts[field as int] == holders(
            index,
            without,
            field,
        ).len() + holders_among(documents, field, documents.len() as int)
}

/// The holders of `field` among the first `upto` of the listed ids.
pub open spec fn holders_upto(
    index: &Index,
    without: Set<DocumentId>,
    field: FieldId,
    ids: Seq<DocumentId>,
    upto: int,
) -> Set<DocumentId> {
    Set::new(
        |id: DocumentId|
            holders(index, without, field).contains(id) && exists|j: int|
                0 <= j < upto && j < ids.len() && #[trigger] ids[j] == id,
    )
}

/// Ids in increasing order lie at or above their positions.
pub proof fn lemma_increasing_ids(ids: Seq<DocumentId>, at: int)
    requires
        forall|i: int, j: int| 0 <= i < j < ids.len() ==> ids[i] < ids[j],
        0 <= at < ids.len(),
    ensures
        at <= ids[at],
    decreases at,
{
    if at > 0 {
        lemma_increasing_ids(ids, at - 1);
    }
}

/// One more id is looked at: the holders among the ids grow by that id
/// if it is a holder, and stay as they are if it is not.
proof fn lemma_holders_step(
    index: &Index,
    without: Set<DocumentId>,
    field: FieldId,
    ids: Seq<DocumentId>,
    upto: int,
)
    requires
        forall|i: int, j: int| 0 <= i < j < ids.len() ==> ids[i] < ids[j],
        0 <= upto < ids.len(),
    ensures
        holders_upto(index, without, field, ids, upto + 1).len() == holders_upto(
            index,
            without,
            field,
            ids,
            upto,
        ).len() + if holders(index, without, field).contains(ids[upto]) {
            1nat
        } else {
            0nat
        },
{
    let before = holders_upto(index, without, field, ids, upto);
    let after = holders_upto(index, without, field, ids, upto + 1);
    lemma_ids_finite(before);
    if holders(index, without, field).contains(ids[upto]) {
        assert(after =~= before.insert(ids[upto])) by {
            assert forall|id: DocumentId| after.contains(id) == before.insert(ids[upto]).contains(
                id,
            ) by {
                if after.contains(id) && id != ids[upto] {
                    let j = choose|j: int| 0 <= j < upto + 1 && j < ids.len()
                        && #[trigger] ids[j] == id;
                    assert(j < upto);
                }
                if before.contains(id) {
                    let j = choose|j: int| 0 <= j < upto && j < ids.len() && #[trigger] ids[j] == id;
                    assert(0 <= j < upto + 1 && ids[j] == id);
                }
                if id == ids[upto] {
                    assert(0 <= upto < upto + 1 && ids[upto] == id);
                }
            }
        }
        assert(!before.contains(ids[upto])) by {
            if before.contains(ids[upto]) {
                let j = choose|j: int| 0 <= j < upto && j < ids.len() && #[trigger] ids[j] == ids[upto];
                assert(ids[j] < ids[upto]);
            }
        }
    } else {
        assert(after =~= before) by {
            assert forall|id: DocumentId| after.contains(id) == before.contains(id) by {
                if after.contains(id) {
                    let j = choose|j: int| 0 <= j < upto + 1 && j < ids.len()
                        && #[trigger] ids[j] == id;
                    assert(j < upto);
                }
                if before.contains(id) {
                    let j = choose|j: int| 0 <= j < upto && j < ids.len() && #[trigger] ids[j] == id;
                    assert(0 <= j < upto + 1 && ids[j] == id);
                }
            }
        }
    }
}

/// Counts `document` under each of its fields that `counts` has a place
/// for.
fn count_document(counts: &mut Vec<u64>, document: &Document)
    requires
        document.wf(),
        old(counts)@.len() <= MAX_FIELDS,
        forall|i: int| 0 <= i < old(counts)@.len() ==> old(counts)@[i] < u64::MAX,
    ensures
        final(counts)@.len() == old(counts)@.len(),
        forall|field: FieldId|
            (field as int) < old(counts)@.len() ==> #[trigger] final(counts)@[field as int] == old(
                counts,
            )@[field as int] + if document@.contains_key(field) {
                1int
            } else {
                0int
            },
{
    let ghost start = counts@;
    let mut at: usize = 0;
    proof {
        document.lemma_field_ids();
    }
    while at < document.len()
        invariant
            document.wf(),
            at <= document.field_ids().len(),
            counts@.len() == start.len(),
            forall|i: int, j: int|
                0 <= i < j < document.field_ids().len() ==> document.field_ids()[i]
                    != document.field_ids()[j],
            forall|field: FieldId|
                (field as int) < start.len() ==> #[trigger] counts@[field as int] == start[field as int]
                    + if exists|q: int| 0 <= q < at && document.field_ids()[q] == field {
                    1int
                } else {
                    0int
                },
            forall|i: int| 0 <= i < start.len() ==> start[i] < u64::MAX,
        decreases document.field_ids().len() - at,
    {
        let field = document.field_id_at(at);
        let ghost before = counts@;
        if (field as usize) < counts.len() {
            proof {
                assert(!exists|q: int| 0 <= q < at && document.field_ids()[q] == field);
            }
            let count = counts[field as usize];
            counts.set(field as usize, count + 1);
        }
        proof {
            assert forall|other: FieldId| (other as int) < start.len() implies #[trigger] counts@[other as int]
                == start[other as int] + if exists|q: int|
                0 <= q < at + 1 && document.field_ids()[q] == other {
                1int
            } else {
                0int
            } by {
                if other == field {
                    assert(0 <= at < at + 1 && document.field_ids()[at as int] == other);
                } else {
                    assert(counts@[other as int] == before[other as int]);
                    if exists|q: int| 0 <= q < at + 1 && document.field_ids()[q] == other {
                        let q = choose|q: int| 0 <= q < at + 1 && document.field_ids()[q] == other;
                        assert(0 <= q < at && document.field_ids()[q] == other);
                    }
                }
            }
        }
        at += 1;
    }
    proof {
        assert forall|field: FieldId| (field as int) < start.len() implies #[trigger] counts@[field as int]
            == start[field as int] + if document@.contains_key(field) {
            1int
        } else {
            0int
        } by {
            if document@.contains_key(field) {
                assert(document.field_ids().contains(field));
                let q = document.field_ids().index_of(field);
                assert(0 <= q < at && document.field_ids()[q] == field);
            }
            if exists|q: int| 0 <= q < at && document.field_ids()[q] == field {
                let q = choose|q: int| 0 <= q < at && document.field_ids()[q] == field;
                assert(document.field_ids().contains(field));
            }
        }
    }
}

/// For each of the first `fields` field ids, the number of documents that
/// have a value for it: among the documents of `index` apart from those
/// of `without`, and among `documents`.
pub fn count_fields(
    index: &Index,
    without: &RoaringBitmap,
    documents: &Vec<StoredDocument>,
    fields: usize,
) -> (counts: Vec<u64>)
    requires
        index.wf(),
        fields <= MAX_FIELDS,
        forall|n: int| 0 <= n < documents@.len() ==> (#[trigger] documents@[n]).document.wf(),
        forall|a: int, b: int|
            0 <= a < b < documents@.len() ==> (#[trigger] documents@[a]).id < (
            #[trigger] documents@[b]).id,
    ensures
        is_distribution(counts@, index, bitmap_ids(*without), documents@, fields as nat),
{
    let ghost gone = bitmap_ids(*without);
    let mut counts: Vec<u64> = Vec::new();
    while counts.len() < fields
        invariant
            counts@.len() <= fields,
            forall|i: int| 0 <= i < counts@.len() ==> counts@[i] == 0,
        decreases fields - counts@.len(),
    {
        counts.push(0);
    }
    let ids = bitmap_to_vec(index.documents_ids());
    let mut k: usize = 0;
    proof {
        assert forall|field: FieldId| (field as int) < fields implies holders_upto(
            index,
            gone,
            field,
            ids@,
            0,
        ).len() == 0 by {
            assert(holders_upto(index, gone, field, ids@, 0) =~= Set::<DocumentId>::empty());
        }
    }
    while k < ids.len()
        invariant
            index.wf(),
            fields <= MAX_FIELDS,
            gone == bitmap_ids(*without),
            k <= ids@.len(),
            counts@.len() == fields,
            forall|i: int, j: int| 0 <= i < j < ids@.len() ==> ids@[i] < ids@[j],
            forall|id: u32| ids@.contains(id) <==> index.live().contains(id),
            forall|i: int| 0 <= i < counts@.len() ==> counts@[i] <= k,
            forall|field: FieldId|
                (field as int) < fields ==> #[trigger] counts@[field as int] == holders_upto(
                    index,
                    gone,
                    field,
                    ids@,
                    k as int,
                ).len(),
        decreases ids@.len() - k,
    {
        let id = ids[k];
        let ghost before = counts@;
        proof {
            lemma_increasing_ids(ids@, k as int);
            assert(ids@.contains(id));
        }
        let kept = !bitmap_contains(without, id);
        match index.document(id) {
            Some(document) => {
                if kept {
                    count_document(&mut counts, document);
                }
            },
            None => {},
        }
        proof {
            assert forall|field: FieldId| (field as int) < fields implies #[trigger] counts@[field as int]
                == holders_upto(index, gone, field, ids@, k + 1).len() by {
                lemma_holders_step(index, gone, field, ids@, k as int);
                assert(before[field as int] == holders_upto(index, gone, field, ids@, k as int).len());
            }
            assert forall|i: int| 0 <= i < counts@.len() implies counts@[i] <= k + 1 by {
                assert(before[i] <= k);
                assert(counts@[i as FieldId as int] <= before[i as FieldId as int] + 1);
            }
        }
        k += 1;
    }
    proof {
        lemma_increasing_ids_bound(ids@);
        assert forall|field: FieldId| (field as int) < fields implies holders_upto(
            index,
            gone,
            field,
            ids@,
            k as int,
        ) == holders(index, gone, field) by {
            assert forall|id: DocumentId|
                holders(index, gone, field).contains(id) implies holders_upto(
                index,
                gone,
                field,
                ids@,
                k as int,
            ).contains(id) by {
                assert(ids@.contains(id));
                let j = ids@.index_of(id);
                assert(0 <= j < k && ids@[j] == id);
            }
            assert(holders_upto(index, gone, field, ids@, k as int) =~= holders(index, gone, field));
        }
    }
    let mut m: usize = 0;
    while m < documents.len()
        invariant
            fields <= MAX_FIELDS,
            m <= documents@.len(),
            counts@.len() == fields,
            ids@.len() <= 0x1_0000_0000,
            forall|n: int| 0 <= n < documents@.len() ==> (#[trigger] documents@[n]).document.wf(),
            forall|a: int, b: int|
                0 <= a < b < documents@.len() ==> (#[trigger] documents@[a]).id < (
                #[trigger] documents@[b]).id,
            forall|i: int| 0 <= i < counts@.len() ==> counts@[i] <= ids@.len() + m,
            forall|field: FieldId|
                (field as int) < fields ==> #[trigger] counts@[field as int] == holders(
                    index,
                    gone,
                    field,
                ).len() + holders_among(documents@, field, m as int),
        decreases documents@.len() - m,
    {
        let ghost before = counts@;
        proof {
            lemma_increasing_ids(Seq::new(documents@.len(), |n: int| documents@[n].id), m as int);
        }
        count_document(&mut counts, &documents[m].document);
        proof {
            assert forall|i: int| 0 <= i < counts@.len() implies counts@[i] <= ids@.len() + m + 1 by {
                assert(before[i] <= ids@.len() + m);
                assert(counts@[i as FieldId as int] <= before[i as FieldId as int] + 1);
            }
        }
        m += 1;
    }
    counts
}

/// A list of distinct ids is no longer than there are ids.
pub proof fn lemma_increasing_ids_bound(ids: Seq<DocumentId>)
    requires
        forall|i: int, j: int| 0 <= i < j < ids.len() ==> ids[i] < ids[j],
    ensures
        ids.len() <= 0x1_0000_0000,
{
    if ids.len() > 0 {
        lemma_increasing_ids(ids, ids.len() - 1);
    }
}

/// For each field of the catalogue, the number of documents of `index`
/// that have a value for it.
pub fn field_distribution(index: &Index) -> (counts: Vec<u64>)
    requires
        index.wf(),
    ensures
        is_distribution(
            counts@,
            index,
            Set::<DocumentId>::empty(),
            Seq::<StoredDocument>::empty(),
            index.fields().len(),
        ),
{
    let none = crate::bitmap::bitmap_new();
    let documents: Vec<StoredDocument> = Vec::new();
    proof {
        index.lemma_wf();
        assert(bitmap_ids(none) =~= Set::<DocumentId>::empty());
        assert(documents@ =~= Seq::<StoredDocument>::empty());
    }
    count_fields(index, &none, &documents, index.fields_ids_map().len())
}

impl TransformOutput {
    /// For each field of the catalogue, the number of documents that have
    /// a value for it once the output is applied to `index`: the
    /// replaced documents are no longer counted, the planned documents
    /// are.
    pub fn field_distribution(&self, index: &Index) -> (counts: Vec<u64>)
        requires
            self.fits(index),
        ensures
            is_distribution(
                counts@,
                index,
                bitmap_ids(self.replaced_documents_ids),
                self.documents@,
                self.fields_ids_map@.len(),
            ),
    {
        proof {
            self.fields_ids_map.lemma_wf();
        }
        count_fields(
            index,
            &self.replaced_documents_ids,
            &self.documents,
            self.fields_ids_map.len(),
        )
    }
}

/// The ids of those among the first `upto` documents that have a value
/// for `field`.
pub open spec fn holders_within(documents: Seq<StoredDocument>, field: FieldId, upto: int) -> Set<
    DocumentId,
> {
    Set::new(
        |id: DocumentId|
            exists|n: int|
                0 <= n < upto && n < documents.len() && (#[trigger] documents[n]).id == id
                    && documents[n].document@.contains_key(field),
    )
}

/// Among documents with distinct ids, as many ids have a field as
/// documents have it.
pub proof fn lemma_holders_within(documents: Seq<StoredDocument>, field: FieldId, upto: int)
    requires
        forall|a: int, b: int|
            0 <= a < b < documents.len() ==> (#[trigger] documents[a]).id < (
            #[trigger] documents[b]).id,
        0 <= upto <= documents.len(),
    ensures
        holders_within(documents, field, upto).len() == holders_among(documents, field, upto),
    decreases upto,
{
    if upto == 0 {
        assert(holders_within(documents, field, upto) =~= Set::<DocumentId>::empty());
    } else {
        lemma_holders_within(documents, field, upto - 1);
        let before = holders_within(documents, field, upto - 1);
        let after = holders_within(documents, field, upto);
        let last = documents[upto - 1];
        lemma_ids_finite(before);
        assert forall|id: DocumentId| before.contains(id) implies after.contains(id) by {
            let n = choose|n: int|
                0 <= n < upto - 1 && n < documents.len() && (#[trigger] documents[n]).id == id
                    && documents[n].document@.contains_key(field);
            assert(0 <= n < upto && documents[n].id == id);
        }
        assert forall|id: DocumentId| after.contains(id) && id != last.id implies before.contains(
            id,
        ) by {
            let n = choose|n: int|
                0 <= n < upto && n < documents.len() && (#[trigger] documents[n]).id == id
                    && documents[n].document@.contains_key(field);
            assert(0 <= n < upto - 1 && documents[n].id == id);
        }
        assert(!before.contains(last.id)) by {
            if before.contains(last.id) {
                let n = choose|n: int|
                    0 <= n < upto - 1 && n < documents.len() && (#[trigger] documents[n]).id
                        == last.id && documents[n].document@.contains_key(field);
                assert(documents[n].id < documents[upto - 1].id);
            }
        }
        if last.document@.contains_key(field) {
            assert(after.contains(last.id)) by {
                assert(documents[upto - 1].id == last.id);
            }
            assert(after =~= before.insert(last.id));
        } else {
            assert(!after.contains(last.id)) by {
                if after.contains(last.id) {
                    let n = choose|n: int|
                        0 <= n < upto && n < documents.len() && (#[trigger] documents[n]).id
                            == last.id && documents[n].document@.contains_key(field);
                    if n < upto - 1 {
                        assert(documents[n].id < documents[upto - 1].id);
                    }
                }
            }
            assert(after =~= before);
        }
    }
}

/// The counts that an output gives for an index are the counts of the
/// index once the output is applied to it.
pub proof fn lemma_distribution_applied(
    before: &Index,
    after: &Index,
    output: &TransformOutput,
    config: IndexDocumentsConfig,
    counts: Seq<u64>,
)
    requires
        output.fits(before),
        output_applied(before, after, output, config),
        is_distribution(
            counts,
            before,
            bitmap_ids(output.replaced_documents_ids),
            output.documents@,
            output.fields_ids_map@.len(),
        ),
    ensures
        is_distribution(
            counts,
            after,
            Set::<DocumentId>::empty(),
            Seq::<StoredDocument>::empty(),
            after.fields().len(),
        ),
{
    let replaced = bitmap_ids(output.replaced_documents_ids);
    let documents = output.documents@;
    let none = Set::<DocumentId>::empty();
    assert forall|field: FieldId| (field as int) < after.fields().len() implies #[trigger] counts[field as int]
        == holders(after, none, field).len() + holders_among(
        Seq::<StoredDocument>::empty(),
        field,
        0,
    ) by {
        let kept = holders(before, replaced, field);
        let added = holders_within(documents, field, documents.len() as int);
        lemma_holders_within(documents, field, documents.len() as int);
        lemma_ids_finite(kept);
        lemma_ids_finite(added);
        assert(kept.disjoint(added)) by {
            assert forall|id: DocumentId| kept.contains(id) implies !added.contains(id) by {
                if added.contains(id) {
                    let n = choose|n: int|
                        0 <= n < documents.len() && (#[trigger] documents[n]).id == id
                            && documents[n].document@.contains_key(field);
                    assert(!before.live().contains(documents[n].id));
                }
            }
        }
        assert(holders(after, none, field) =~= kept.union(added)) by {
            assert forall|id: DocumentId| holders(after, none, field).contains(id) == kept.union(
                added,
            ).contains(id) by {
                if added.contains(id) {
                    let n = choose|n: int|
                        0 <= n < documents.len() && (#[trigger] documents[n]).id == id
                            && documents[n].document@.contains_key(field);
                    assert(crate::typed_chunk::ids_from(documents, 0).contains(id));
                    assert(after.documents()[documents[n].id] == documents[n].document@);
                }
                if kept.contains(id) {
                    assert(after.documents()[id] == before.documents()[id]);
                }
                if holders(after, none, field).contains(id) {
                    if crate::typed_chunk::ids_from(documents, 0).contains(id) {
                        let n = choose|n: int|
                            0 <= n < documents.len() && 0 <= n && (#[trigger] documents[n]).id == id;
                        assert(after.documents()[documents[n].id] == documents[n].document@);
                    } else {
                        assert(before.live().contains(id) && !replaced.contains(id));
                        assert(after.documents()[id] == before.documents()[id]);
                    }
                }
            }
        }
        vstd::set_lib::lemma_set_disjoint_lens(kept, added);
    }
}

} // verus!
