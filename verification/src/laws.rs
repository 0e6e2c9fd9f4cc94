//! Laws of the indexing: what holds of every batch and of every run.

use crate::bitmap::{bitmap_ids, lemma_ids_finite};
use crate::bytes::is_prefix;
use crate::documents::{DocumentId, FieldId};
use crate::enrich::raw_value;
use crate::extract::{key_in_document, Database};
use crate::facet_values::{document_held, holds_for, is_values_of, lemma_holds_for, names_one_of};
use crate::fields::MAX_FIELDS;
use crate::index::{shape_of, source_of, DeletionStrategy, Index, PrefixDatabase};
use crate::prefix_databases::{key_word, lists_under, prefix_docids_of, KeyShape};
use crate::index_documents::{
    facet_values_applied, max_prefix_length_of, new_docids, output_applied, threshold_of,
    IndexDocumentsConfig, IndexDocumentsMethod,
};
use crate::prefix::is_frequent_prefix;
use crate::settings::names_contain;
use crate::transform::{
    catalogue_with, first_free, id_limit, initial_state, is_planned, merged, raw_names, resolved,
    state_after_addition, state_after_batch, state_fits, TransformOutput, TransformState,
};
use crate::typed_chunk::ids_from;
use vstd::prelude::*;

verus! {

/// The first free id is not below the id from which it is sought, it is
/// free, and every id between the two is taken.
pub proof fn lemma_first_free(used: Set<DocumentId>, from: int)
    requires
        0 <= from <= id_limit(),
    ensures
        from <= first_free(used, from) <= id_limit(),
        first_free(used, from) < id_limit() ==> !used.contains(
            first_free(used, from) as DocumentId,
        ),
        forall|id: DocumentId| from <= id < first_free(used, from) ==> used.contains(id),
    decreases id_limit() - from,
{
    if from < id_limit() && used.contains(from as DocumentId) {
        lemma_first_free(used, from + 1);
    }
}

/// What a catalogue holds after names arrived: what it held, in the same
/// places, and the names; and no name twice if it held none twice.
pub proof fn lemma_catalogue_with(fields: Seq<Seq<u8>>, names: Seq<Seq<u8>>)
    ensures
        fields.is_prefix_of(catalogue_with(fields, names)),
        fields.no_duplicates() ==> catalogue_with(fields, names).no_duplicates(),
        forall|name: Seq<u8>| #[trigger]
            catalogue_with(fields, names).contains(name) <==> fields.contains(name)
                || names.contains(name),
    decreases names.len(),
{
    if names.len() > 0 {
        let earlier = names.drop_last();
        let before = catalogue_with(fields, earlier);
        let after = catalogue_with(fields, names);
        lemma_catalogue_with(fields, earlier);
        assert(fields.is_prefix_of(after)) by {
            assert(fields =~= before.subrange(0, fields.len() as int));
            if !before.contains(names.last()) {
                assert(fields =~= after.subrange(0, fields.len() as int));
            }
        }
        assert forall|name: Seq<u8>| #[trigger]
            after.contains(name) <==> fields.contains(name) || names.contains(name) by {
            if names.contains(name) {
                let i = names.index_of(name);
                if i < earlier.len() {
                    assert(earlier[i] == name);
                    assert(earlier.contains(name));
                }
            }
            if earlier.contains(name) {
                let i = earlier.index_of(name);
                assert(names[i] == name);
            }
            if before.contains(name) {
                let i = before.index_of(name);
                assert(after[i] == name);
            }
            if after.contains(name) && !before.contains(name) {
                let i = after.index_of(name);
                assert(i == before.len());
                assert(names[names.len() - 1] == name);
            }
            if name == names.last() {
                assert(names[names.len() - 1] == name);
                if !before.contains(name) {
                    assert(after[before.len() as int] == name);
                }
            }
        }
        if fields.no_duplicates() && !before.contains(names.last()) {
            assert forall|i: int, j: int| 0 <= i < after.len() && 0 <= j < after.len() && i
                != j implies after[i] != after[j] by {
                if i < before.len() && j < before.len() {
                } else if i < before.len() {
                    assert(before.contains(after[i]));
                } else {
                    assert(before.contains(after[j]));
                }
            }
        }
    } else {
        assert(fields =~= fields.subrange(0, fields.len() as int));
    }
}

/// Where `fields` gives a value to a name, one of its fields has that name.
pub proof fn lemma_raw_value_named(raw: Seq<(Seq<u8>, Seq<u8>)>, name: Seq<u8>)
    ensures
        raw_value(raw, name).is_some() <==> raw_names(raw).contains(name),
    decreases raw.len(),
{
    if raw.len() > 0 {
        lemma_raw_value_named(raw.drop_last(), name);
        let names = raw_names(raw);
        let earlier = raw_names(raw.drop_last());
        if raw.last().0 == name {
            assert(names[raw.len() - 1] == name);
        } else {
            if earlier.contains(name) {
                let i = earlier.index_of(name);
                assert(names[i] == name);
            }
            if names.contains(name) {
                let i = names.index_of(name);
                assert(earlier[i] == name);
            }
        }
    }
}

/// The document that `raw` is does not change when the catalogue grows.
pub proof fn lemma_resolved_stable(
    fields: Seq<Seq<u8>>,
    longer: Seq<Seq<u8>>,
    raw: Seq<(Seq<u8>, Seq<u8>)>,
)
    requires
        fields.is_prefix_of(longer),
        longer.no_duplicates(),
        longer.len() <= MAX_FIELDS,
        forall|name: Seq<u8>| raw_names(raw).contains(name) ==> #[trigger] fields.contains(name),
    ensures
        resolved(fields, raw) == resolved(longer, raw),
{
    assert forall|id: FieldId|
        (#[trigger] resolved(fields, raw).contains_key(id)) == resolved(longer, raw).contains_key(
            id,
        ) && (resolved(fields, raw).contains_key(id) ==> resolved(fields, raw)[id] == resolved(
            longer,
            raw,
        )[id]) by {
        if id < fields.len() {
            assert(longer[id as int] == fields[id as int]);
        } else if id < longer.len() {
            lemma_raw_value_named(raw, longer[id as int]);
            if raw_value(raw, longer[id as int]).is_some() {
                let name = longer[id as int];
                assert(fields.contains(name));
                let j = fields.index_of(name);
                assert(longer[j] == name);
            }
        }
    }
    assert(resolved(fields, raw) =~= resolved(longer, raw));
}

/// The ids of the documents that a transform has planned.
pub open spec fn planned_ids(state: TransformState) -> Set<DocumentId> {
    Set::new(
        |id: DocumentId|
            exists|name: Seq<u8>| #[trigger]
                is_planned(state, name) && state.pending[name].unwrap().id == id,
    )
}

/// The ids of the documents that the index has once the plan of a
/// transform is carried out.
pub open spec fn live_after(index: &Index, state: TransformState) -> Set<DocumentId> {
    index.live().difference(state.replaced).union(planned_ids(state))
}

/// Invariant of the transform: a state that fits its index still fits it
/// after a document was read.
pub proof fn lemma_addition_fits(
    index: &Index,
    method: IndexDocumentsMethod,
    state: TransformState,
    name: Seq<u8>,
    raw: Seq<(Seq<u8>, Seq<u8>)>,
)
    requires
        index.wf(),
        state_fits(state, index),
        state_after_addition(index, method, state, name, raw) is Ok,
    ensures
        state_fits(state_after_addition(index, method, state, name, raw)->Ok_0, index),
{
    let after = state_after_addition(index, method, state, name, raw)->Ok_0;
    lemma_catalogue_with(state.fields, raw_names(raw));
    lemma_first_free(state.used, state.cursor);
    index.lemma_wf();
    assert(index.fields().is_prefix_of(after.fields)) by {
        assert(state.fields =~= after.fields.subrange(0, state.fields.len() as int));
        assert(index.fields() =~= state.fields.subrange(0, index.fields().len() as int));
        assert(index.fields() =~= after.fields.subrange(0, index.fields().len() as int));
    }
    if is_planned(state, name) {
        assert forall|other: Seq<u8>| #[trigger] is_planned(after, other) implies {
            let id = after.pending[other].unwrap().id;
            &&& after.used.contains(id)
            &&& id < after.cursor
            &&& !index.live().contains(id)
            &&& !index.soft_deleted().contains(id)
        } by {
            assert(is_planned(state, other));
        }
        assert forall|a: Seq<u8>, b: Seq<u8>|
            #![trigger is_planned(after, a), is_planned(after, b)]
            is_planned(after, a) && is_planned(after, b) && a != b implies after.pending[a].unwrap().id
            != after.pending[b].unwrap().id by {
            assert(is_planned(state, a) && is_planned(state, b));
        }
        assert forall|id: DocumentId| #[trigger] after.replaced.contains(id) implies index.live().contains(
            id,
        ) && after.pending.contains_key(index.external_id_of(id)) by {
            assert(state.pending.contains_key(index.external_id_of(id)));
        }
    } else {
        let id = first_free(state.used, state.cursor) as DocumentId;
        assert forall|other: Seq<u8>| #[trigger] is_planned(after, other) implies {
            let planned = after.pending[other].unwrap().id;
            &&& after.used.contains(planned)
            &&& planned < after.cursor
            &&& !index.live().contains(planned)
            &&& !index.soft_deleted().contains(planned)
        } by {
            if other != name {
                assert(is_planned(state, other));
            }
        }
        assert forall|a: Seq<u8>, b: Seq<u8>|
            #![trigger is_planned(after, a), is_planned(after, b)]
            is_planned(after, a) && is_planned(after, b) && a != b implies after.pending[a].unwrap().id
            != after.pending[b].unwrap().id by {
            if a != name {
                assert(is_planned(state, a));
            }
            if b != name {
                assert(is_planned(state, b));
            }
        }
        assert forall|stored: DocumentId| #[trigger] after.replaced.contains(stored) implies index.live().contains(
            stored,
        ) && after.pending.contains_key(index.external_id_of(stored)) by {
            if state.replaced.contains(stored) {
                assert(state.pending.contains_key(index.external_id_of(stored)));
            }
        }
    }
}

/// The document that the index has for `name`, if it has one.
pub open spec fn stored_document(index: &Index, name: Seq<u8>) -> Option<Map<FieldId, Seq<u8>>> {
    if index.external_ids().contains_key(name) {
        Some(index.documents()[index.external_ids()[name]])
    } else {
        None
    }
}

/// The document that `name` has after the documents `documents` arrived
/// one after the other, where it had `base` before: each document that is
/// sent for `name` replaces what `name` had or, under `UpdateDocuments`,
/// is laid over it.
pub open spec fn document_after(
    method: IndexDocumentsMethod,
    base: Option<Map<FieldId, Seq<u8>>>,
    fields: Seq<Seq<u8>>,
    documents: Seq<(Seq<u8>, Seq<(Seq<u8>, Seq<u8>)>)>,
    name: Seq<u8>,
) -> Option<Map<FieldId, Seq<u8>>>
    decreases documents.len(),
{
    if documents.len() == 0 {
        base
    } else {
        let before = document_after(method, base, fields, documents.drop_last(), name);
        if documents.last().0 == name {
            Some(merged(method, before, resolved(fields, documents.last().1)))
        } else {
            before
        }
    }
}

/// `name` is the identifier of one of `documents`.
pub open spec fn is_sent(documents: Seq<(Seq<u8>, Seq<(Seq<u8>, Seq<u8>)>)>, name: Seq<u8>) -> bool {
    exists|i: int| 0 <= i < documents.len() && (#[trigger] documents[i]).0 == name
}

/// The catalogue `fields` has every field of `documents`.
pub open spec fn has_fields_of(
    fields: Seq<Seq<u8>>,
    documents: Seq<(Seq<u8>, Seq<(Seq<u8>, Seq<u8>)>)>,
) -> bool {
    forall|i: int, name: Seq<u8>|
        0 <= i < documents.len() && raw_names((#[trigger] documents[i]).1).contains(name)
            ==> #[trigger] fields.contains(name)
}

/// The index has a document for each of `documents`.
pub open spec fn all_stored(index: &Index, documents: Seq<(Seq<u8>, Seq<(Seq<u8>, Seq<u8>)>)>) -> bool {
    forall|i: int|
        0 <= i < documents.len() ==> index.external_ids().contains_key((#[trigger] documents[i]).0)
}

/// What a transform has planned after it has read `documents` and nothing
/// else.
pub open spec fn is_plan_of(
    index: &Index,
    method: IndexDocumentsMethod,
    state: TransformState,
    documents: Seq<(Seq<u8>, Seq<(Seq<u8>, Seq<u8>)>)>,
) -> bool {
    &&& state_fits(state, index)
    &&& has_fields_of(state.fields, documents)
    &&& forall|name: Seq<u8>| #[trigger] state.pending.contains_key(name) <==> is_sent(documents, name)
    &&& forall|name: Seq<u8>| #[trigger]
        state.pending.contains_key(name) ==> is_planned(state, name) && Some(
            state.pending[name].unwrap().document,
        ) == document_after(method, stored_document(index, name), state.fields, documents, name)
    &&& forall|id: DocumentId| #[trigger]
        state.replaced.contains(id) <==> index.live().contains(id) && is_sent(
            documents,
            index.external_id_of(id),
        )
    &&& all_stored(index, documents) ==> live_after(index, state).len() == index.live().len()
}

/// The document that a name has after a batch does not depend on the
/// fields that the catalogue gains later.
pub proof fn lemma_document_after_stable(
    method: IndexDocumentsMethod,
    base: Option<Map<FieldId, Seq<u8>>>,
    fields: Seq<Seq<u8>>,
    longer: Seq<Seq<u8>>,
    documents: Seq<(Seq<u8>, Seq<(Seq<u8>, Seq<u8>)>)>,
    name: Seq<u8>,
)
    requires
        fields.is_prefix_of(longer),
        longer.no_duplicates(),
        longer.len() <= MAX_FIELDS,
        has_fields_of(fields, documents),
    ensures
        document_after(method, base, fields, documents, name) == document_after(
            method,
            base,
            longer,
            documents,
            name,
        ),
    decreases documents.len(),
{
    if documents.len() > 0 {
        let earlier = documents.drop_last();
        assert(has_fields_of(fields, earlier)) by {
            assert forall|i: int, field: Seq<u8>|
                0 <= i < earlier.len() && raw_names((#[trigger] earlier[i]).1).contains(
                    field,
                ) implies #[trigger] fields.contains(field) by {
                assert(earlier[i] == documents[i]);
            }
        }
        lemma_document_after_stable(method, base, fields, longer, earlier, name);
        assert forall|field: Seq<u8>|
            raw_names(documents.last().1).contains(field) implies #[trigger] fields.contains(
            field,
        ) by {
            assert(documents[documents.len() - 1] == documents.last());
        }
        lemma_resolved_stable(fields, longer, documents.last().1);
    }
}

/// What a transform plans from a batch: every document that was sent is
/// planned with what the documents of its name make of the stored one,
/// the stored documents of these names are to be deleted, and the index
/// keeps its number of documents where it has a document for each name.
pub proof fn lemma_plan_of_batch(
    index: &Index,
    method: IndexDocumentsMethod,
    documents: Seq<(Seq<u8>, Seq<(Seq<u8>, Seq<u8>)>)>,
)
    requires
        index.wf(),
        state_after_batch(index, method, initial_state(index), documents) is Ok,
    ensures
        is_plan_of(
            index,
            method,
            state_after_batch(index, method, initial_state(index), documents)->Ok_0,
            documents,
        ),
    decreases documents.len(),
{
    let start = initial_state(index);
    let state = state_after_batch(index, method, start, documents)->Ok_0;
    index.lemma_wf();
    if documents.len() == 0 {
        assert(index.fields() =~= index.fields().subrange(0, index.fields().len() as int));
        assert(planned_ids(state) =~= Set::<DocumentId>::empty());
        assert(live_after(index, state) =~= index.live());
        assert(state_fits(state, index));
    } else {
        let earlier = documents.drop_last();
        let name = documents.last().0;
        let raw = documents.last().1;
        lemma_plan_of_batch(index, method, earlier);
        let before = state_after_batch(index, method, start, earlier)->Ok_0;
        assert(state == state_after_addition(index, method, before, name, raw)->Ok_0);
        lemma_addition_fits(index, method, before, name, raw);
        lemma_catalogue_with(before.fields, raw_names(raw));
        lemma_first_free(before.used, before.cursor);
        assert(has_fields_of(state.fields, documents)) by {
            assert forall|i: int, field: Seq<u8>|
                0 <= i < documents.len() && raw_names((#[trigger] documents[i]).1).contains(
                    field,
                ) implies #[trigger] state.fields.contains(field) by {
                if i < earlier.len() {
                    assert(earlier[i] == documents[i]);
                    assert(before.fields.contains(field));
                }
            }
        }
        assert forall|other: Seq<u8>| #[trigger]
            state.pending.contains_key(other) <==> is_sent(documents, other) by {
            if is_sent(earlier, other) {
                let i = choose|i: int| 0 <= i < earlier.len() && (#[trigger] earlier[i]).0 == other;
                assert(documents[i].0 == other);
            }
            if other == name {
                assert(documents[documents.len() - 1].0 == other);
            }
            if is_sent(documents, other) {
                let i = choose|i: int|
                    0 <= i < documents.len() && (#[trigger] documents[i]).0 == other;
                if i < earlier.len() {
                    assert(earlier[i].0 == other);
                }
            }
        }
        assert forall|other: Seq<u8>| #[trigger]
            state.pending.contains_key(other) implies is_planned(state, other) && Some(
            state.pending[other].unwrap().document,
        ) == document_after(method, stored_document(index, other), state.fields, documents, other) by {
            lemma_document_after_stable(
                method,
                stored_document(index, other),
                before.fields,
                state.fields,
                earlier,
                other,
            );
            assert forall|field: Seq<u8>|
                raw_names(raw).contains(field) implies #[trigger] state.fields.contains(field) by {}
            if other != name {
                assert(before.pending.contains_key(other));
            } else if before.pending.contains_key(name) {
                assert(is_planned(before, name));
            } else {
                assert(!is_sent(earlier, name));
                lemma_not_sent(method, stored_document(index, name), state.fields, earlier, name);
            }
        }
        assert forall|id: DocumentId| #[trigger]
            state.replaced.contains(id) <==> index.live().contains(id) && is_sent(
                documents,
                index.external_id_of(id),
            ) by {
            if is_sent(earlier, index.external_id_of(id)) {
                let i = choose|i: int|
                    0 <= i < earlier.len() && (#[trigger] earlier[i]).0 == index.external_id_of(id);
                assert(documents[i].0 == index.external_id_of(id));
            }
            if index.live().contains(id) && is_sent(documents, index.external_id_of(id)) {
                let i = choose|i: int|
                    0 <= i < documents.len() && (#[trigger] documents[i]).0
                        == index.external_id_of(id);
                if i < earlier.len() {
                    assert(earlier[i].0 == index.external_id_of(id));
                } else {
                    assert(index.external_id_of(id) == name);
                    if before.pending.contains_key(name) {
                        assert(before.replaced.contains(index.external_ids()[name]));
                    }
                }
            }
            if state.replaced.contains(id) && !before.replaced.contains(id) {
                assert(id == index.external_ids()[name]);
                assert(documents[documents.len() - 1].0 == name);
            }
        }
        if all_stored(index, documents) {
            assert(all_stored(index, earlier)) by {
                assert forall|i: int| 0 <= i < earlier.len() implies index.external_ids().contains_key(
                    (#[trigger] earlier[i]).0,
                ) by {
                    assert(earlier[i] == documents[i]);
                }
            }
            assert(index.external_ids().contains_key(name)) by {
                assert(documents[documents.len() - 1].0 == name);
            }
            lemma_ids_finite(live_after(index, before));
            if is_planned(before, name) {
                assert(planned_ids(state) =~= planned_ids(before)) by {
                    assert forall|id: DocumentId|
                        planned_ids(state).contains(id) == planned_ids(before).contains(id) by {
                        if planned_ids(before).contains(id) {
                            let other = choose|other: Seq<u8>| #[trigger]
                                is_planned(before, other) && before.pending[other].unwrap().id == id;
                            assert(is_planned(state, other) && state.pending[other].unwrap().id
                                == id);
                        }
                        if planned_ids(state).contains(id) {
                            let other = choose|other: Seq<u8>| #[trigger]
                                is_planned(state, other) && state.pending[other].unwrap().id == id;
                            assert(is_planned(before, other) && before.pending[other].unwrap().id
                                == id);
                        }
                    }
                }
                assert(live_after(index, state) =~= live_after(index, before));
            } else {
                assert(!before.pending.contains_key(name));
                let gone = index.external_ids()[name];
                let id = first_free(before.used, before.cursor) as DocumentId;
                assert(planned_ids(state) =~= planned_ids(before).insert(id)) by {
                    assert forall|other_id: DocumentId|
                        planned_ids(state).contains(other_id) == planned_ids(before).insert(
                            id,
                        ).contains(other_id) by {
                        if planned_ids(before).contains(other_id) {
                            let other = choose|other: Seq<u8>| #[trigger]
                                is_planned(before, other) && before.pending[other].unwrap().id
                                    == other_id;
                            assert(is_planned(state, other) && state.pending[other].unwrap().id
                                == other_id);
                        }
                        if other_id == id {
                            assert(is_planned(state, name) && state.pending[name].unwrap().id == id);
                        }
                        if planned_ids(state).contains(other_id) {
                            let other = choose|other: Seq<u8>| #[trigger]
                                is_planned(state, other) && state.pending[other].unwrap().id
                                    == other_id;
                            if other != name {
                                assert(is_planned(before, other) && before.pending[other].unwrap().id
                                    == other_id);
                            }
                        }
                    }
                }
                assert(!before.replaced.contains(gone)) by {
                    if before.replaced.contains(gone) {
                        assert(before.pending.contains_key(index.external_id_of(gone)));
                    }
                }
                assert(live_after(index, before).contains(gone));
                assert(!live_after(index, before).contains(id)) by {
                    if planned_ids(before).contains(id) {
                        let other = choose|other: Seq<u8>| #[trigger]
                            is_planned(before, other) && before.pending[other].unwrap().id == id;
                        assert(before.pending[other].unwrap().id < before.cursor);
                    }
                }
                assert(!planned_ids(before).contains(gone)) by {
                    if planned_ids(before).contains(gone) {
                        let other = choose|other: Seq<u8>| #[trigger]
                            is_planned(before, other) && before.pending[other].unwrap().id == gone;
                        assert(!index.live().contains(before.pending[other].unwrap().id));
                    }
                }
                assert(live_after(index, state) =~= live_after(index, before).remove(gone).insert(
                    id,
                ));
            }
        }
    }
}

/// What a name has where no document was sent for it is what it had.
pub proof fn lemma_not_sent(
    method: IndexDocumentsMethod,
    base: Option<Map<FieldId, Seq<u8>>>,
    fields: Seq<Seq<u8>>,
    documents: Seq<(Seq<u8>, Seq<(Seq<u8>, Seq<u8>)>)>,
    name: Seq<u8>,
)
    requires
        !is_sent(documents, name),
    ensures
        document_after(method, base, fields, documents, name) == base,
    decreases documents.len(),
{
    if documents.len() > 0 {
        let earlier = documents.drop_last();
        assert(documents[documents.len() - 1].0 != name);
        if is_sent(earlier, name) {
            let i = choose|i: int| 0 <= i < earlier.len() && (#[trigger] earlier[i]).0 == name;
            assert(documents[i].0 == name);
        }
        lemma_not_sent(method, base, fields, earlier, name);
    }
}

/// What a run makes of the plan of a transform: every planned document is
/// stored under its identifier, and the index has the documents that the
/// plan leaves it.
pub proof fn lemma_run_stores_plan(
    before: &Index,
    after: &Index,
    state: TransformState,
    output: &TransformOutput,
    config: IndexDocumentsConfig,
)
    requires
        output.realizes(state),
        output.fits(before),
        output_applied(before, after, output, config),
    ensures
        after.fields() == state.fields,
        after.live() == live_after(before, state),
        forall|name: Seq<u8>| #[trigger]
            is_planned(state, name) ==> after.external_ids().contains_key(name)
                && after.external_ids()[name] == state.pending[name].unwrap().id
                && after.documents()[after.external_ids()[name]]
                == state.pending[name].unwrap().document,
{
    let documents = output.documents@;
    assert(ids_from(documents, 0) =~= planned_ids(state)) by {
        assert forall|id: DocumentId|
            ids_from(documents, 0).contains(id) == planned_ids(state).contains(id) by {
            if ids_from(documents, 0).contains(id) {
                let n = choose|n: int|
                    0 <= n < documents.len() && 0 <= n && (#[trigger] documents[n]).id == id;
                assert(is_planned(state, documents[n].external_id@));
            }
            if planned_ids(state).contains(id) {
                let name = choose|name: Seq<u8>| #[trigger]
                    is_planned(state, name) && state.pending[name].unwrap().id == id;
                let n = choose|n: int|
                    0 <= n < documents.len() && (#[trigger] documents[n]).external_id@ == name;
                assert(documents[n].id == id);
            }
        }
    }
    assert forall|name: Seq<u8>| #[trigger] is_planned(state, name) implies after.external_ids().contains_key(
        name,
    ) && after.external_ids()[name] == state.pending[name].unwrap().id
        && after.documents()[after.external_ids()[name]]
        == state.pending[name].unwrap().document by {
        let n = choose|n: int|
            0 <= n < documents.len() && (#[trigger] documents[n]).external_id@ == name;
        assert(after.documents()[documents[n].id] == documents[n].document@);
    }
}

/// No two of `documents` have the same identifier.
pub open spec fn distinct_names(documents: Seq<(Seq<u8>, Seq<(Seq<u8>, Seq<u8>)>)>) -> bool {
    forall|i: int, j: int|
        0 <= i < j < documents.len() ==> (#[trigger] documents[i]).0 != (#[trigger] documents[j]).0
}

/// Among documents with distinct identifiers, what a name has after the
/// batch is what its own document makes of what it had.
pub proof fn lemma_document_after_distinct(
    method: IndexDocumentsMethod,
    base: Option<Map<FieldId, Seq<u8>>>,
    fields: Seq<Seq<u8>>,
    documents: Seq<(Seq<u8>, Seq<(Seq<u8>, Seq<u8>)>)>,
    i: int,
)
    requires
        distinct_names(documents),
        0 <= i < documents.len(),
    ensures
        document_after(method, base, fields, documents, documents[i].0) == Some(
            merged(method, base, resolved(fields, documents[i].1)),
        ),
    decreases documents.len(),
{
    let earlier = documents.drop_last();
    let name = documents[i].0;
    assert(distinct_names(earlier)) by {
        assert forall|a: int, b: int| 0 <= a < b < earlier.len() implies (#[trigger] earlier[a]).0 != (
        #[trigger] earlier[b]).0 by {
            assert(earlier[a] == documents[a]);
            assert(earlier[b] == documents[b]);
        }
    }
    if i == documents.len() - 1 {
        assert(!is_sent(earlier, name)) by {
            if is_sent(earlier, name) {
                let j = choose|j: int| 0 <= j < earlier.len() && (#[trigger] earlier[j]).0 == name;
                assert(earlier[j] == documents[j]);
            }
        }
        lemma_not_sent(method, base, fields, earlier, name);
    } else {
        assert(earlier[i] == documents[i]);
        assert(documents[i].0 != documents[documents.len() - 1].0);
        lemma_document_after_distinct(method, base, fields, earlier, i);
    }
}

/// Under `UpdateDocuments`, a field that a name had and that none of the
/// documents sent for it sets is kept with its value.
pub proof fn lemma_update_keeps_fields(
    base: Map<FieldId, Seq<u8>>,
    fields: Seq<Seq<u8>>,
    documents: Seq<(Seq<u8>, Seq<(Seq<u8>, Seq<u8>)>)>,
    name: Seq<u8>,
    field: FieldId,
)
    requires
        base.contains_key(field),
        forall|j: int|
            0 <= j < documents.len() && (#[trigger] documents[j]).0 == name ==> !resolved(
                fields,
                documents[j].1,
            ).contains_key(field),
    ensures
        document_after(
            IndexDocumentsMethod::UpdateDocuments,
            Some(base),
            fields,
            documents,
            name,
        ).is_some(),
        document_after(
            IndexDocumentsMethod::UpdateDocuments,
            Some(base),
            fields,
            documents,
            name,
        ).unwrap().contains_key(field),
        document_after(
            IndexDocumentsMethod::UpdateDocuments,
            Some(base),
            fields,
            documents,
            name,
        ).unwrap()[field] == base[field],
    decreases documents.len(),
{
    if documents.len() > 0 {
        let earlier = documents.drop_last();
        assert forall|j: int| 0 <= j < earlier.len()
            && (#[trigger] earlier[j]).0 == name implies !resolved(
            fields,
            earlier[j].1,
        ).contains_key(field) by {
            assert(earlier[j] == documents[j]);
        }
        lemma_update_keeps_fields(base, fields, earlier, name, field);
        assert(documents[documents.len() - 1] == documents.last());
    }
}

/// Replacement. A batch of documents with distinct identifiers is read
/// under `ReplaceDocuments` and the run is carried out. Then each
/// document of the batch is stored under its identifier with exactly the
/// fields that it was sent with: the fields that an earlier version had
/// and the new one lacks are gone. Where the index had a document for
/// every identifier of the batch, it has as many documents as before.
pub proof fn law_replace_documents(
    before: &Index,
    after: &Index,
    documents: Seq<(Seq<u8>, Seq<(Seq<u8>, Seq<u8>)>)>,
    state: TransformState,
    output: &TransformOutput,
    config: IndexDocumentsConfig,
)
    requires
        before.wf(),
        distinct_names(documents),
        state_after_batch(
            before,
            IndexDocumentsMethod::ReplaceDocuments,
            initial_state(before),
            documents,
        ) == Ok::<TransformState, crate::error::UserError>(state),
        output.realizes(state),
        output.fits(before),
        output_applied(before, after, output, config),
    ensures
        forall|i: int|
            0 <= i < documents.len() ==> after.external_ids().contains_key(
                (#[trigger] documents[i]).0,
            ) && after.documents()[after.external_ids()[documents[i].0]] == resolved(
                after.fields(),
                documents[i].1,
            ),
        all_stored(before, documents) ==> after.live().len() == before.live().len(),
{
    let method = IndexDocumentsMethod::ReplaceDocuments;
    lemma_plan_of_batch(before, method, documents);
    lemma_run_stores_plan(before, after, state, output, config);
    assert forall|i: int| 0 <= i < documents.len() implies after.external_ids().contains_key(
        (#[trigger] documents[i]).0,
    ) && after.documents()[after.external_ids()[documents[i].0]] == resolved(
        after.fields(),
        documents[i].1,
    ) by {
        let name = documents[i].0;
        assert(is_sent(documents, name));
        assert(state.pending.contains_key(name));
        lemma_document_after_distinct(
            method,
            stored_document(before, name),
            state.fields,
            documents,
            i,
        );
    }
}

/// Update. A batch of documents is read under `UpdateDocuments` and the
/// run is carried out. Then each identifier of the batch has the document
/// that its documents, one laid over the other, make of the document that
/// the index had for it: a field that the stored document had and that
/// none of the new ones sets is kept with its value, and among documents
/// with distinct identifiers each is laid over the stored one. Where the
/// index had a document for every identifier of the batch, it has as many
/// documents as before.
pub proof fn law_update_documents(
    before: &Index,
    after: &Index,
    documents: Seq<(Seq<u8>, Seq<(Seq<u8>, Seq<u8>)>)>,
    state: TransformState,
    output: &TransformOutput,
    config: IndexDocumentsConfig,
)
    requires
        before.wf(),
        state_after_batch(
            before,
            IndexDocumentsMethod::UpdateDocuments,
            initial_state(before),
            documents,
        ) == Ok::<TransformState, crate::error::UserError>(state),
        output.realizes(state),
        output.fits(before),
        output_applied(before, after, output, config),
    ensures
        forall|i: int|
            0 <= i < documents.len() ==> after.external_ids().contains_key(
                (#[trigger] documents[i]).0,
            ) && Some(after.documents()[after.external_ids()[documents[i].0]]) == document_after(
                IndexDocumentsMethod::UpdateDocuments,
                stored_document(before, documents[i].0),
                after.fields(),
                documents,
                documents[i].0,
            ),
        forall|i: int, field: FieldId|
            0 <= i < documents.len() && before.external_ids().contains_key(
                (#[trigger] documents[i]).0,
            ) && #[trigger] before.documents()[before.external_ids()[documents[i].0]].contains_key(field)
                && (forall|j: int|
                0 <= j < documents.len() && (#[trigger] documents[j]).0 == documents[i].0
                    ==> !resolved(after.fields(), documents[j].1).contains_key(field))
                ==> after.documents()[after.external_ids()[documents[i].0]].contains_key(field)
                && after.documents()[after.external_ids()[documents[i].0]][field]
                == before.documents()[before.external_ids()[documents[i].0]][field],
        distinct_names(documents) ==> forall|i: int|
            0 <= i < documents.len() && before.external_ids().contains_key(
                (#[trigger] documents[i]).0,
            ) ==> after.documents()[after.external_ids()[documents[i].0]]
                == before.documents()[before.external_ids()[documents[i].0]].union_prefer_right(
                resolved(after.fields(), documents[i].1),
            ),
        all_stored(before, documents) ==> after.live().len() == before.live().len(),
{
    let method = IndexDocumentsMethod::UpdateDocuments;
    lemma_plan_of_batch(before, method, documents);
    lemma_run_stores_plan(before, after, state, output, config);
    assert forall|i: int| 0 <= i < documents.len() implies after.external_ids().contains_key(
        (#[trigger] documents[i]).0,
    ) && Some(after.documents()[after.external_ids()[documents[i].0]]) == document_after(
        method,
        stored_document(before, documents[i].0),
        after.fields(),
        documents,
        documents[i].0,
    ) by {
        let name = documents[i].0;
        assert(is_sent(documents, name));
        assert(state.pending.contains_key(name));
    }
    assert forall|i: int, field: FieldId|
        0 <= i < documents.len() && before.external_ids().contains_key(
            (#[trigger] documents[i]).0,
        ) && #[trigger] before.documents()[before.external_ids()[documents[i].0]].contains_key(field)
            && (forall|j: int|
            0 <= j < documents.len() && (#[trigger] documents[j]).0 == documents[i].0 ==> !resolved(
                after.fields(),
                documents[j].1,
            ).contains_key(field)) implies after.documents()[after.external_ids()[documents[i].0]].contains_key(
        field,
    ) && after.documents()[after.external_ids()[documents[i].0]][field]
        == before.documents()[before.external_ids()[documents[i].0]][field] by {
        let name = documents[i].0;
        assert(is_sent(documents, name));
        assert(state.pending.contains_key(name));
        lemma_update_keeps_fields(
            before.documents()[before.external_ids()[name]],
            after.fields(),
            documents,
            name,
            field,
        );
    }
    if distinct_names(documents) {
        assert forall|i: int|
            0 <= i < documents.len() && before.external_ids().contains_key(
                (#[trigger] documents[i]).0,
            ) implies after.documents()[after.external_ids()[documents[i].0]]
            == before.documents()[before.external_ids()[documents[i].0]].union_prefer_right(
            resolved(after.fields(), documents[i].1),
        ) by {
            let name = documents[i].0;
            assert(is_sent(documents, name));
            assert(state.pending.contains_key(name));
            lemma_document_after_distinct(
                method,
                stored_document(before, name),
                state.fields,
                documents,
                i,
            );
        }
    }
}

/// Idempotence. A transform that reads an empty batch has read nothing:
/// its plan is what it was. A run of a pipeline to which no document was
/// added leaves the index as it is, as `IndexDocuments::execute` states.
pub proof fn law_empty_batch(index: &Index, method: IndexDocumentsMethod, state: TransformState)
    ensures
        state_after_batch(index, method, state, Seq::empty()) == Ok::<
            TransformState,
            crate::error::UserError,
        >(state),
{
}

/// Round trip. After a run, a document that was stored is listed under
/// each of its keys in each posting database: a document that holds a
/// word is among the documents of the word. After the hard deletion of
/// the document no posting database lists it any more, and a key that no
/// other document holds has left its database.
pub proof fn law_round_trip(
    before: &Index,
    after: &Index,
    output: &TransformOutput,
    config: IndexDocumentsConfig,
    n: int,
    database: Database,
    key: Seq<u8>,
    deleted: Set<DocumentId>,
    last: &Index,
)
    requires
        output_applied(before, after, output, config),
        0 <= n < output.documents@.len(),
        key_in_document(
            database,
            &before.settings(),
            after.fields(),
            output.documents@[n].document@,
            key,
        ),
        deleted.contains(output.documents@[n].id),
        last.is_hard_deletion_of(after, deleted),
    ensures
        after.postings(database).docids(key).contains(output.documents@[n].id),
        after.postings(database)@.contains_key(key),
        !last.postings(database).docids(key).contains(output.documents@[n].id),
        after.postings(database).docids(key).subset_of(deleted) ==> !last.postings(
            database,
        )@.contains_key(key),
{
    let id = output.documents@[n].id;
    assert(new_docids(
        &before.settings(),
        output.fields_ids_map@,
        output.documents@,
        database,
        key,
    ).contains(id));
    assert(after.postings(database).docids(key).contains(id));
    if after.postings(database).docids(key).subset_of(deleted) {
        assert(last.postings(database).docids(key) =~= Set::<DocumentId>::empty());
    }
    after.lemma_wf();
    last.lemma_wf();
    after.postings(database).lemma_wf();
    last.postings(database).lemma_wf();
}

/// Prefix difference. After a run, a prefix that is frequent among the
/// words of the index is one of its prefixes. Where it was none before
/// the run, each prefix database lists, under a key whose word it is, the
/// documents of every key of the source database that goes under that
/// key: in the database of the word prefixes, every document of every
/// word that begins with the prefix.
pub proof fn law_new_prefix(
    before: &Index,
    after: &Index,
    output: &TransformOutput,
    config: IndexDocumentsConfig,
    database: PrefixDatabase,
    prefix: Seq<u8>,
    key: Seq<u8>,
    source_key: Seq<u8>,
)
    requires
        output_applied(before, after, output, config),
        is_frequent_prefix(
            &after.postings(Database::WordDocids),
            prefix,
            threshold_of(config),
            max_prefix_length_of(config),
        ),
        !before.prefixes().contains(prefix),
        key_word(shape_of(database), key) == Some(prefix),
        lists_under(shape_of(database), source_key, key),
    ensures
        after.prefixes().contains(prefix),
        after.postings(source_of(database)).docids(source_key).subset_of(
            after.prefix_postings(database).docids(key),
        ),
        shape_of(database) == KeyShape::Word ==> key == prefix && is_prefix(prefix, source_key),
{
    assert forall|id: DocumentId|
        after.postings(source_of(database)).docids(source_key).contains(
            id,
        ) implies after.prefix_postings(database).docids(key).contains(id) by {
        assert(prefix_docids_of(shape_of(database), &after.postings(source_of(database)), key).contains(
            id,
        ));
    }
    if shape_of(database) == KeyShape::Word {
        assert(key.subrange(0, key.len() as int) =~= key);
        assert(source_key.subrange(0, source_key.len() as int) =~= source_key);
    }
}

/// Strings of filterable fields. After a run, each string that one of
/// its documents has in a filterable field stands under its key. A key
/// that names none of the documents of the run holds what it held
/// before, unless it names a replaced document that is deleted for good:
/// then it has left.
pub proof fn law_facet_values(
    before: &Index,
    after: &Index,
    output: &TransformOutput,
    strategy: DeletionStrategy,
    key: Seq<u8>,
)
    requires
        output.fits(before),
        facet_values_applied(before, after, output, strategy),
    ensures
        forall|n: int, text: Seq<u8>|
            0 <= n < output.documents@.len() && #[trigger] holds_for(
                &before.settings(),
                output.fields_ids_map@,
                output.documents@[n].id,
                output.documents@[n].document@,
                key,
                text,
            ) ==> after.facet_values().contains_key(key) && after.facet_values()[key] == text,
        !names_one_of(key, ids_from(output.documents@, 0)) ==> {
            let gone = strategy == DeletionStrategy::AlwaysHard && names_one_of(
                key,
                bitmap_ids(output.replaced_documents_ids),
            );
            &&& after.facet_values().contains_key(key) == (before.facet_values().contains_key(key)
                && !gone)
            &&& after.facet_values().contains_key(key) ==> after.facet_values()[key]
                == before.facet_values()[key]
        },
{
    let settings = before.settings();
    let fields = output.fields_ids_map@;
    let documents = output.documents@;
    let chunk = choose|chunk: Map<Seq<u8>, Seq<u8>>| #[trigger]
        is_values_of(chunk, &settings, fields, documents, 0, documents.len() as int)
            && after.facet_values() == crate::index_documents::kept_values(
            before.facet_values(),
            bitmap_ids(output.replaced_documents_ids),
            strategy,
        ).union_prefer_right(chunk);
    assert forall|n: int, text: Seq<u8>|
        0 <= n < documents.len() && #[trigger] holds_for(
            &settings,
            fields,
            documents[n].id,
            documents[n].document@,
            key,
            text,
        ) implies after.facet_values().contains_key(key) && after.facet_values()[key] == text by {
        assert(document_held(chunk, &settings, fields, documents[n].id, documents[n].document@));
    }
    if !names_one_of(key, ids_from(documents, 0)) {
        if chunk.contains_key(key) {
            let n = choose|n: int|
                0 <= n < documents.len() as int && 0 <= n < documents.len() && holds_for(
                    &settings,
                    fields,
                    (#[trigger] documents[n]).id,
                    documents[n].document@,
                    key,
                    chunk[key],
                );
            lemma_holds_for(&settings, fields, documents[n].id, documents[n].document@, key, chunk[key]);
            assert(ids_from(documents, 0).contains(documents[n].id));
        }
    }
}

/// Prefix sets. The prefixes that were and are frequent, those that have
/// become frequent and those that are no longer frequent have nothing in
/// common. The first two together are the frequent prefixes as they are
/// now, the first and the last together those as they were.
pub proof fn law_prefix_sets(
    earlier: Set<Seq<u8>>,
    current: Set<Seq<u8>>,
    common: Seq<Vec<u8>>,
    added: Seq<Vec<u8>>,
    deleted: Seq<Vec<u8>>,
    prefix: Seq<u8>,
)
    requires
        forall|name: Seq<u8>| #[trigger]
            names_contain(common, name) <==> earlier.contains(name) && current.contains(name),
        forall|name: Seq<u8>| #[trigger]
            names_contain(added, name) <==> current.contains(name) && !earlier.contains(name),
        forall|name: Seq<u8>| #[trigger]
            names_contain(deleted, name) <==> earlier.contains(name) && !current.contains(name),
    ensures
        !(names_contain(common, prefix) && names_contain(added, prefix)),
        !(names_contain(common, prefix) && names_contain(deleted, prefix)),
        !(names_contain(added, prefix) && names_contain(deleted, prefix)),
        current.contains(prefix) <==> names_contain(common, prefix) || names_contain(added, prefix),
        earlier.contains(prefix) <==> names_contain(common, prefix) || names_contain(
            deleted,
            prefix,
        ),
{
}

/// Batches in a row. Reading one batch and then another leaves the
/// state that reading the two as one batch leaves, and gives the same
/// fault where a document cannot be read. So what holds of one batch that
/// is read from the start holds of all the batches that a pipeline is
/// sent, taken as one.
pub proof fn law_batches_in_a_row(
    index: &Index,
    method: IndexDocumentsMethod,
    state: TransformState,
    first: Seq<(Seq<u8>, Seq<(Seq<u8>, Seq<u8>)>)>,
    second: Seq<(Seq<u8>, Seq<(Seq<u8>, Seq<u8>)>)>,
)
    ensures
        state_after_batch(index, method, state, first + second) == match state_after_batch(
            index,
            method,
            state,
            first,
        ) {
            Ok(between) => state_after_batch(index, method, between, second),
            Err(fault) => Err(fault),
        },
    decreases second.len(),
{
    if second.len() == 0 {
        assert(first + second =~= first);
    } else {
        law_batches_in_a_row(index, method, state, first, second.drop_last());
        assert((first + second).drop_last() =~= first + second.drop_last());
        assert((first + second).last() == second.last());
    }
}

} // verus!
