//! Finding the primary key of a batch and the identifier of each of its
//! documents.
//!
//! A document arrives as a list of fields, each a name with a serialized
//! value. The value of its primary key names the document: an integer, or
//! a string of letters, digits, hyphens and underscores.

use crate::bytes::{compare_keys, copy_bytes, copy_range, key_lt, keys_equal, KeyOrder};
use crate::error::UserError;
use crate::settings::names_contain;
use crate::tokenizer::lowercase;
use vstd::prelude::*;

verus! {

/// One field of a document as it arrives.
#[derive(Debug, Clone, PartialEq, Eq)]
pub struct RawField {
    pub name: Vec<u8>,
    pub value: Vec<u8>,
}

/// A document as it arrives.
#[derive(Debug, Clone, PartialEq, Eq)]
pub struct RawDocument {
    /// The fields in the order of the document. Where a name occurs more
    /// than once, its last value counts.
    pub fields: Vec<RawField>,
    /// The identifier that the document gets when it has no value for the
    /// primary key and identifiers are generated.
    pub fallback_id: Option<Vec<u8>>,
}

/// A document whose identifier is known.
pub struct EnrichedDocument {
    pub external_id: Vec<u8>,
    pub fields: Vec<RawField>,
}

/// The name and the value of each field, as byte strings.
pub open spec fn field_views(fields: Seq<RawField>) -> Seq<(Seq<u8>, Seq<u8>)> {
    Seq::new(fields.len(), |i: int| (fields[i].name@, fields[i].value@))
}

/// The primary key that a batch gets when it has none and identifiers are
/// generated: `id`.
pub open spec fn default_primary_key() -> Seq<u8> {
    seq![105u8, 100u8]
}

/// The value that `fields` gives to `name`: that of the last field of this
/// name.
pub open spec fn raw_value(fields: Seq<(Seq<u8>, Seq<u8>)>, name: Seq<u8>) -> Option<Seq<u8>>
    decreases fields.len(),
{
    if fields.len() == 0 {
        None
    } else if fields.last().0 == name {
        Some(fields.last().1)
    } else {
        raw_value(fields.drop_last(), name)
    }
}

/// `byte` can stand in a document identifier.
pub open spec fn is_id_byte(byte: u8) -> bool {
    (48 <= byte <= 57) || (65 <= byte <= 90) || (97 <= byte <= 122) || byte == 45 || byte == 95
}

/// `text` is a document identifier: not empty, and made of letters,
/// digits, hyphens and underscores.
pub open spec fn is_id_text(text: Seq<u8>) -> bool {
    text.len() > 0 && forall|i: int| 0 <= i < text.len() ==> is_id_byte(#[trigger] text[i])
}

/// `text` is made of digits, and of at least one.
pub open spec fn is_digits(text: Seq<u8>) -> bool {
    text.len() > 0 && forall|i: int| 0 <= i < text.len() ==> 48 <= #[trigger] text[i] <= 57
}

/// `text` is an integer: digits, after a minus sign or without one.
pub open spec fn is_integer_text(text: Seq<u8>) -> bool {
    if text.len() > 0 && text[0] == 45 {
        is_digits(text.subrange(1, text.len() as int))
    } else {
        is_digits(text)
    }
}

/// The identifier that a serialized value stands for: the content of a
/// string that is an identifier, or the text of an integer. A float, a
/// string with white space and any other value stand for none.
pub open spec fn document_id_of(value: Seq<u8>) -> Option<Seq<u8>> {
    if value.len() >= 2 && value[0] == 34 && value[value.len() - 1] == 34 {
        let content = value.subrange(1, value.len() - 1);
        if is_id_text(content) {
            Some(content)
        } else {
            None
        }
    } else if is_integer_text(value) {
        Some(value)
    } else {
        None
    }
}

/// The serialized string whose content is `text`.
pub open spec fn quoted(text: Seq<u8>) -> Seq<u8> {
    seq![34u8] + text + seq![34u8]
}

/// `name` can be the primary key of a batch that names none: it ends in
/// `id`, in upper or lower case.
pub open spec fn is_candidate(name: Seq<u8>) -> bool {
    name.len() >= 2 && lowercase(name[name.len() - 2]) == 105 && lowercase(name[name.len() - 1])
        == 100
}

/// One of the first `upto` documents of `batch` has a field called `name`.
pub open spec fn batch_has_field(batch: Seq<RawDocument>, upto: int, name: Seq<u8>) -> bool {
    exists|d: int, f: int|
        0 <= d < upto && d < batch.len() && 0 <= f < batch[d].fields@.len() && (
        #[trigger] batch[d].fields@[f]).name@ == name
}

/// The order of the candidates: a shorter name first, names of one length
/// byte by byte.
pub open spec fn shortlex_lt(a: Seq<u8>, b: Seq<u8>) -> bool {
    a.len() < b.len() || (a.len() == b.len() && key_lt(a, b))
}

/// `names` is in strictly increasing order of candidates.
pub open spec fn shortlex_sorted(names: Seq<Vec<u8>>) -> bool {
    forall|i: int, j: int|
        0 <= i < j < names.len() ==> shortlex_lt((#[trigger] names[i])@, (#[trigger] names[j])@)
}

/// What becomes of one document of a batch.
pub enum Enriched {
    /// The document has this identifier and these fields.
    Document { id: Seq<u8>, fields: Seq<(Seq<u8>, Seq<u8>)> },
    /// This value of the primary key, or this fallback, is no identifier.
    Invalid { value: Seq<u8> },
    /// The document has no value for the primary key, and none is
    /// generated.
    Missing,
}

/// What becomes of `document` under the primary key `primary_key`. Where
/// the document has no value for the key and identifiers are generated, it
/// takes its fallback and gains the primary key as its last field.
pub open spec fn enriched(document: RawDocument, primary_key: Seq<u8>, autogenerate: bool) -> Enriched {
    let fields = field_views(document.fields@);
    match raw_value(fields, primary_key) {
        Some(value) => match document_id_of(value) {
            Some(id) => Enriched::Document { id, fields },
            None => Enriched::Invalid { value },
        },
        None => match document.fallback_id {
            Some(id) => if !autogenerate {
                Enriched::Missing
            } else if is_id_text(id@) {
                Enriched::Document { id: id@, fields: fields.push((primary_key, quoted(id@))) }
            } else {
                Enriched::Invalid { value: id@ }
            },
            None => Enriched::Missing,
        },
    }
}

/// The document at `position` is the first of `batch` that has a fault.
pub open spec fn is_first_fault(
    batch: Seq<RawDocument>,
    primary_key: Seq<u8>,
    autogenerate: bool,
    position: int,
) -> bool {
    &&& 0 <= position < batch.len()
    &&& !(enriched(batch[position], primary_key, autogenerate) is Document)
    &&& forall|j: int|
        0 <= j < position ==> enriched(#[trigger] batch[j], primary_key, autogenerate) is Document
}

/// `error` reports the fault `outcome` of the document at `position`.
pub open spec fn reports(error: UserError, outcome: Enriched, position: int) -> bool {
    match error {
        UserError::InvalidDocumentId { value } => outcome == (Enriched::Invalid { value: value@ }),
        UserError::MissingDocumentId { position: reported } => reported == position && outcome
            == Enriched::Missing,
        _ => false,
    }
}

/// The value that `fields` gives to `name`.
pub fn find_value<'a>(fields: &'a Vec<RawField>, name: &[u8]) -> (value: Option<&'a Vec<u8>>)
    ensures
        match value {
            Some(found) => raw_value(field_views(fields@), name@) == Some(found@),
            None => raw_value(field_views(fields@), name@).is_none(),
        },
{
    let ghost all = field_views(fields@);
    let mut i: usize = fields.len();
    proof {
        assert(all.subrange(0, i as int) =~= all);
    }
    while i > 0
        invariant
            i <= fields.len(),
            all == field_views(fields@),
            raw_value(all, name@) == raw_value(all.subrange(0, i as int), name@),
        decreases i,
    {
        let ghost part = all.subrange(0, i as int);
        proof {
            assert(part.last() == all[i - 1]);
            assert(part.drop_last() =~= all.subrange(0, i - 1));
        }
        if keys_equal(fields[i - 1].name.as_slice(), name) {
            return Some(&fields[i - 1].value);
        }
        i -= 1;
    }
    None
}

fn id_byte(byte: u8) -> (valid: bool)
    ensures
        valid == is_id_byte(byte),
{
    (48 <= byte && byte <= 57) || (65 <= byte && byte <= 90) || (97 <= byte && byte <= 122) || byte
        == 45 || byte == 95
}

fn id_text(text: &[u8], from: usize, to: usize) -> (valid: bool)
    requires
        from <= to <= text.len(),
    ensures
        valid == is_id_text(text@.subrange(from as int, to as int)),
{
    let ghost part = text@.subrange(from as int, to as int);
    if from == to {
        return false;
    }
    let mut i: usize = from;
    while i < to
        invariant
            from <= i <= to,
            to <= text.len(),
            part == text@.subrange(from as int, to as int),
            forall|j: int| 0 <= j < i - from ==> is_id_byte(#[trigger] part[j]),
        decreases to - i,
    {
        if !id_byte(text[i]) {
            proof {
                assert(part[i - from] == text@[i as int]);
            }
            return false;
        }
        i += 1;
    }
    true
}

fn digits(text: &[u8], from: usize) -> (valid: bool)
    requires
        from <= text.len(),
    ensures
        valid == is_digits(text@.subrange(from as int, text@.len() as int)),
{
    let ghost part = text@.subrange(from as int, text@.len() as int);
    if from == text.len() {
        return false;
    }
    let mut i: usize = from;
    while i < text.len()
        invariant
            from <= i <= text.len(),
            part == text@.subrange(from as int, text@.len() as int),
            forall|j: int| 0 <= j < i - from ==> 48 <= #[trigger] part[j] <= 57,
        decreases text.len() - i,
    {
        if !(48 <= text[i] && text[i] <= 57) {
            proof {
                assert(part[i - from] == text@[i as int]);
            }
            return false;
        }
        i += 1;
    }
    true
}

/// The identifier that a serialized value stands for, if it stands for
/// one.
pub fn parse_document_id(value: &[u8]) -> (id: Option<Vec<u8>>)
    ensures
        match id {
            Some(found) => document_id_of(value@) == Some(found@),
            None => document_id_of(value@).is_none(),
        },
{
    let n = value.len();
    if n >= 2 && value[0] == 34 && value[n - 1] == 34 {
        if id_text(value, 1, n - 1) {
            Some(copy_range(value, 1, n - 1))
        } else {
            None
        }
    } else {
        let integer = if n > 0 && value[0] == 45 {
            digits(value, 1)
        } else {
            proof {
                assert(value@.subrange(0, n as int) =~= value@);
            }
            digits(value, 0)
        };
        if integer {
            Some(copy_bytes(value))
        } else {
            None
        }
    }
}

fn quote(text: &[u8]) -> (value: Vec<u8>)
    ensures
        value@ == quoted(text@),
{
    let mut value: Vec<u8> = Vec::new();
    value.push(34u8);
    let mut i: usize = 0;
    while i < text.len()
        invariant
            i <= text.len(),
            value@ == seq![34u8] + text@.subrange(0, i as int),
        decreases text.len() - i,
    {
        value.push(text[i]);
        proof {
            assert(value@ =~= seq![34u8] + text@.subrange(0, i + 1));
        }
        i += 1;
    }
    value.push(34u8);
    proof {
        assert(text@.subrange(0, i as int) =~= text@);
        assert(value@ =~= quoted(text@));
    }
    value
}

fn copy_fields(fields: &Vec<RawField>) -> (copy: Vec<RawField>)
    ensures
        field_views(copy@) == field_views(fields@),
{
    let mut copy: Vec<RawField> = Vec::new();
    let mut i: usize = 0;
    while i < fields.len()
        invariant
            i <= fields.len(),
            copy@.len() == i,
            field_views(copy@) == field_views(fields@).subrange(0, i as int),
        decreases fields.len() - i,
    {
        let ghost before = copy@;
        copy.push(
            RawField {
                name: copy_bytes(fields[i].name.as_slice()),
                value: copy_bytes(fields[i].value.as_slice()),
            },
        );
        proof {
            assert forall|j: int| 0 <= j < i + 1 implies field_views(copy@)[j] == field_views(
                fields@,
            ).subrange(0, i + 1)[j] by {
                if j < i {
                    assert(copy@[j] == before[j]);
                    assert(field_views(before)[j] == field_views(fields@).subrange(0, i as int)[j]);
                }
            }
            assert(field_views(copy@) =~= field_views(fields@).subrange(0, i + 1));
        }
        i += 1;
    }
    proof {
        assert(field_views(fields@).subrange(0, i as int) =~= field_views(fields@));
    }
    copy
}

/// Finds the identifier of one document of a batch.
pub fn enrich_document(document: &RawDocument, primary_key: &[u8], autogenerate: bool) -> (result:
    Result<EnrichedDocument, UserError>)
    ensures
        match result {
            Ok(found) => enriched(*document, primary_key@, autogenerate) == (Enriched::Document {
                id: found.external_id@,
                fields: field_views(found.fields@),
            }),
            Err(UserError::InvalidDocumentId { value }) => enriched(
                *document,
                primary_key@,
                autogenerate,
            ) == (Enriched::Invalid { value: value@ }),
            Err(UserError::MissingDocumentId { position }) => enriched(
                *document,
                primary_key@,
                autogenerate,
            ) == Enriched::Missing,
            Err(_) => false,
        },
{
    match find_value(&document.fields, primary_key) {
        Some(value) => match parse_document_id(value.as_slice()) {
            Some(external_id) => Ok(
                EnrichedDocument { external_id, fields: copy_fields(&document.fields) },
            ),
            None => Err(UserError::InvalidDocumentId { value: copy_bytes(value.as_slice()) }),
        },
        None => match &document.fallback_id {
            Some(id) => {
                if !autogenerate {
                    Err(UserError::MissingDocumentId { position: 0 })
                } else if id_text(id.as_slice(), 0, id.len()) {
                    proof {
                        assert(id@.subrange(0, id@.len() as int) =~= id@);
                    }
                    let mut fields = copy_fields(&document.fields);
                    fields.push(
                        RawField { name: copy_bytes(primary_key), value: quote(id.as_slice()) },
                    );
                    proof {
                        assert(field_views(fields@) =~= field_views(document.fields@).push(
                            (primary_key@, quoted(id@)),
                        ));
                    }
                    Ok(EnrichedDocument { external_id: copy_bytes(id.as_slice()), fields })
                } else {
                    proof {
                        assert(id@.subrange(0, id@.len() as int) =~= id@);
                    }
                    Err(UserError::InvalidDocumentId { value: copy_bytes(id.as_slice()) })
                }
            },
            None => Err(UserError::MissingDocumentId { position: 0 }),
        },
    }
}

/// Finds the identifier of every document of a batch, or the fault of the
/// first document that has one.
pub fn enrich_documents_batch(
    primary_key: &[u8],
    autogenerate: bool,
    batch: &Vec<RawDocument>,
) -> (result: Result<Vec<EnrichedDocument>, UserError>)
    ensures
        match result {
            Ok(documents) => documents@.len() == batch@.len() && forall|i: int|
                0 <= i < batch@.len() ==> enriched(#[trigger] batch@[i], primary_key@, autogenerate)
                    == (Enriched::Document {
                    id: documents@[i].external_id@,
                    fields: field_views(documents@[i].fields@),
                }),
            Err(error) => exists|i: int|
                #[trigger] is_first_fault(batch@, primary_key@, autogenerate, i) && reports(
                    error,
                    enriched(batch@[i], primary_key@, autogenerate),
                    i,
                ),
        },
{
    let mut documents: Vec<EnrichedDocument> = Vec::new();
    let mut i: usize = 0;
    while i < batch.len()
        invariant
            i <= batch@.len(),
            documents@.len() == i,
            forall|j: int|
                0 <= j < i ==> enriched(#[trigger] batch@[j], primary_key@, autogenerate) == (
                Enriched::Document {
                    id: documents@[j].external_id@,
                    fields: field_views(documents@[j].fields@),
                }),
        decreases batch@.len() - i,
    {
        match enrich_document(&batch[i], primary_key, autogenerate) {
            Ok(document) => {
                documents.push(document);
            },
            Err(UserError::MissingDocumentId { position: _ }) => {
                proof {
                    assert(is_first_fault(batch@, primary_key@, autogenerate, i as int));
                }
                return Err(UserError::MissingDocumentId { position: i });
            },
            Err(error) => {
                proof {
                    assert(is_first_fault(batch@, primary_key@, autogenerate, i as int));
                }
                return Err(error);
            },
        }
        i += 1;
    }
    Ok(documents)
}

/// `name` is a field of `batch` that can be its primary key.
pub open spec fn is_batch_candidate(batch: Seq<RawDocument>, name: Seq<u8>) -> bool {
    is_candidate(name) && batch_has_field(batch, batch.len() as int, name)
}

/// The primary key under which `batch` is read: the key that is known
/// already, or else the only field of the batch that can be one, or else
/// `id` where identifiers are generated and no field can be one. There is
/// none where several fields can be the key, or where none can and
/// identifiers are not generated.
pub open spec fn resolved_key(current: Option<Seq<u8>>, autogenerate: bool, batch: Seq<RawDocument>) -> Option<
    Seq<u8>,
> {
    match current {
        Some(known) => Some(known),
        None => if exists|name: Seq<u8>| is_batch_candidate(batch, name) {
            let only = choose|name: Seq<u8>| is_batch_candidate(batch, name);
            if forall|other: Seq<u8>| is_batch_candidate(batch, other) ==> other == only {
                Some(only)
            } else {
                None
            }
        } else if autogenerate {
            Some(default_primary_key())
        } else {
            None
        },
    }
}

/// The name that an optional key holds, as a byte string.
pub open spec fn key_view(key: Option<&Vec<u8>>) -> Option<Seq<u8>> {
    match key {
        Some(name) => Some(name@),
        None => None,
    }
}

/// The order of the candidates is transitive.
pub proof fn lemma_shortlex_transitive(a: Seq<u8>, b: Seq<u8>, c: Seq<u8>)
    requires
        shortlex_lt(a, b),
        shortlex_lt(b, c),
    ensures
        shortlex_lt(a, c),
{
    if a.len() == b.len() && b.len() == c.len() {
        crate::bytes::lemma_key_lt_transitive(a, b, c);
    }
}

fn candidate(name: &[u8]) -> (found: bool)
    ensures
        found == is_candidate(name@),
{
    let n = name.len();
    n >= 2 && (name[n - 2] == 105 || name[n - 2] == 73) && (name[n - 1] == 100 || name[n - 1] == 68)
}

fn shortlex_order(a: &[u8], b: &[u8]) -> (order: KeyOrder)
    ensures
        order == KeyOrder::Before <==> shortlex_lt(a@, b@),
        order == KeyOrder::Same <==> a@ == b@,
        order == KeyOrder::After <==> shortlex_lt(b@, a@),
{
    if a.len() < b.len() {
        KeyOrder::Before
    } else if a.len() > b.len() {
        KeyOrder::After
    } else {
        compare_keys(a, b)
    }
}

fn insert_candidate(names: &mut Vec<Vec<u8>>, name: &[u8])
    requires
        shortlex_sorted(old(names)@),
    ensures
        shortlex_sorted(final(names)@),
        forall|other: Seq<u8>| #[trigger]
            names_contain(final(names)@, other) <==> names_contain(old(names)@, other) || other
                == name@,
{
    let mut at: usize = 0;
    let mut searching = true;
    while searching && at < names.len()
        invariant
            at <= names@.len(),
            names@ == old(names)@,
            shortlex_sorted(names@),
            forall|j: int| 0 <= j < at ==> shortlex_lt((#[trigger] names@[j])@, name@),
            !searching ==> at < names@.len() && shortlex_lt(name@, names@[at as int]@),
        decreases names@.len() - at + if searching { 1int } else { 0int },
    {
        match shortlex_order(names[at].as_slice(), name) {
            KeyOrder::Before => {
                at += 1;
            },
            KeyOrder::Same => {
                proof {
                    assert forall|other: Seq<u8>| #[trigger]
                        names_contain(names@, other) <==> names_contain(old(names)@, other) || other
                            == name@ by {
                        if other == name@ {
                            assert(names@[at as int]@ == other);
                        }
                    }
                }
                return;
            },
            KeyOrder::After => {
                searching = false;
            },
        }
    }
    let ghost before = names@;
    names.insert(at, copy_bytes(name));
    proof {
        assert forall|i: int, j: int| 0 <= i < j < names@.len() implies shortlex_lt(
            (#[trigger] names@[i])@,
            (#[trigger] names@[j])@,
        ) by {
            if i < at && j > at {
                assert(names@[i] == before[i]);
                assert(names@[j] == before[j - 1]);
            } else if j < at {
                assert(names@[i] == before[i]);
                assert(names@[j] == before[j]);
            } else if i > at {
                assert(names@[i] == before[i - 1]);
                assert(names@[j] == before[j - 1]);
            } else if i == at {
                assert(names@[j] == before[j - 1]);
                if j - 1 > at {
                    assert(shortlex_lt(before[at as int]@, before[j - 1]@));
                    lemma_shortlex_transitive(name@, before[at as int]@, before[j - 1]@);
                }
            } else {
                assert(names@[i] == before[i]);
            }
        }
        assert forall|other: Seq<u8>| #[trigger]
            names_contain(names@, other) <==> names_contain(before, other) || other == name@ by {
            if names_contain(before, other) {
                let j = choose|j: int| 0 <= j < before.len() && (#[trigger] before[j])@ == other;
                if j < at {
                    assert(names@[j]@ == other);
                } else {
                    assert(names@[j + 1]@ == other);
                }
            }
            if other == name@ {
                assert(names@[at as int]@ == other);
            }
            if names_contain(names@, other) {
                let j = choose|j: int| 0 <= j < names@.len() && (#[trigger] names@[j])@ == other;
                if j < at {
                    assert(before[j]@ == other);
                } else if j > at {
                    assert(before[j - 1]@ == other);
                }
            }
        }
    }
}

/// The fields of `batch` that can be its primary key, in the order of the
/// candidates.
pub fn primary_key_candidates(batch: &Vec<RawDocument>) -> (names: Vec<Vec<u8>>)
    ensures
        shortlex_sorted(names@),
        forall|name: Seq<u8>| #[trigger]
            names_contain(names@, name) <==> is_batch_candidate(batch@, name),
{
    let mut names: Vec<Vec<u8>> = Vec::new();
    let mut d: usize = 0;
    while d < batch.len()
        invariant
            d <= batch@.len(),
            shortlex_sorted(names@),
            forall|name: Seq<u8>| #[trigger]
                names_contain(names@, name) <==> is_candidate(name) && batch_has_field(
                    batch@,
                    d as int,
                    name,
                ),
        decreases batch@.len() - d,
    {
        let fields = &batch[d].fields;
        let mut f: usize = 0;
        while f < fields.len()
            invariant
                d < batch@.len(),
                *fields == batch@[d as int].fields,
                f <= fields@.len(),
                shortlex_sorted(names@),
                forall|name: Seq<u8>| #[trigger]
                    names_contain(names@, name) <==> is_candidate(name) && (batch_has_field(
                        batch@,
                        d as int,
                        name,
                    ) || exists|g: int| 0 <= g < f && (#[trigger] fields@[g]).name@ == name),
            decreases fields@.len() - f,
        {
            if candidate(fields[f].name.as_slice()) {
                insert_candidate(&mut names, fields[f].name.as_slice());
            }
            proof {
                assert forall|name: Seq<u8>| #[trigger]
                    names_contain(names@, name) <==> is_candidate(name) && (batch_has_field(
                        batch@,
                        d as int,
                        name,
                    ) || exists|g: int| 0 <= g < f + 1 && (#[trigger] fields@[g]).name@ == name) by {
                    if exists|g: int| 0 <= g < f + 1 && (#[trigger] fields@[g]).name@ == name {
                        let g = choose|g: int| 0 <= g < f + 1 && (#[trigger] fields@[g]).name@ == name;
                        if g < f {
                            assert(0 <= g < f && fields@[g].name@ == name);
                        }
                    }
                    if name == fields@[f as int].name@ {
                        assert(0 <= f < f + 1 && fields@[f as int].name@ == name);
                    }
                }
            }
            f += 1;
        }
        proof {
            assert forall|name: Seq<u8>| #[trigger]
                names_contain(names@, name) <==> is_candidate(name) && batch_has_field(
                    batch@,
                    d + 1,
                    name,
                ) by {
                if batch_has_field(batch@, d as int, name) {
                    let (a, b) = choose|a: int, b: int|
                        0 <= a < d && a < batch@.len() && 0 <= b < batch@[a].fields@.len() && (
                        #[trigger] batch@[a].fields@[b]).name@ == name;
                    assert(0 <= a < d + 1 && batch@[a].fields@[b].name@ == name);
                }
                if exists|g: int| 0 <= g < f && (#[trigger] fields@[g]).name@ == name {
                    let g = choose|g: int| 0 <= g < f && (#[trigger] fields@[g]).name@ == name;
                    assert(0 <= d < d + 1 && batch@[d as int].fields@[g].name@ == name);
                }
                if batch_has_field(batch@, d + 1, name) {
                    let (a, b) = choose|a: int, b: int|
                        0 <= a < d + 1 && a < batch@.len() && 0 <= b < batch@[a].fields@.len() && (
                        #[trigger] batch@[a].fields@[b]).name@ == name;
                    if a < d {
                        assert(0 <= a < d && batch@[a].fields@[b].name@ == name);
                    } else {
                        assert(0 <= b < f && fields@[b].name@ == name);
                    }
                }
            }
        }
        d += 1;
    }
    names
}

/// The primary key under which a batch is read: the one that the index
/// has, or else the only field of the batch that can be one. Without such
/// a field the key is `id` where identifiers are generated.
pub fn resolve_primary_key(current: Option<&Vec<u8>>, autogenerate: bool, batch: &Vec<RawDocument>) -> (result:
    Result<Vec<u8>, UserError>)
    ensures
        match result {
            Ok(name) => resolved_key(key_view(current), autogenerate, batch@) == Some(name@),
            Err(_) => resolved_key(key_view(current), autogenerate, batch@).is_none(),
        },
        match result {
            Ok(name) => match current {
                Some(known) => name@ == known@,
                None => (is_batch_candidate(batch@, name@) && forall|other: Seq<u8>| #[trigger]
                    is_batch_candidate(batch@, other) ==> other == name@) || (autogenerate && name@
                    == default_primary_key() && forall|other: Seq<u8>|
                    !#[trigger] is_batch_candidate(batch@, other)),
            },
            Err(UserError::NoPrimaryKeyCandidateFound) => current.is_none() && !autogenerate
                && forall|other: Seq<u8>| !#[trigger] is_batch_candidate(batch@, other),
            Err(UserError::MultiplePrimaryKeyCandidatesFound { candidates }) => current.is_none()
                && candidates@.len() >= 2 && shortlex_sorted(candidates@) && forall|name: Seq<u8>|
             #[trigger]
                names_contain(candidates@, name) <==> is_batch_candidate(batch@, name),
            Err(_) => false,
        },
{
    match current {
        Some(known) => Ok(copy_bytes(known.as_slice())),
        None => {
            let mut candidates = primary_key_candidates(batch);
            if candidates.len() == 0 {
                if autogenerate {
                    let mut name: Vec<u8> = Vec::new();
                    name.push(105u8);
                    name.push(100u8);
                    proof {
                        assert(name@ =~= default_primary_key());
                        assert forall|other: Seq<u8>| !#[trigger] is_batch_candidate(
                            batch@,
                            other,
                        ) by {
                            assert(!names_contain(candidates@, other));
                        }
                    }
                    Ok(name)
                } else {
                    proof {
                        assert forall|other: Seq<u8>| !#[trigger] is_batch_candidate(
                            batch@,
                            other,
                        ) by {
                            assert(!names_contain(candidates@, other));
                        }
                    }
                    Err(UserError::NoPrimaryKeyCandidateFound)
                }
            } else if candidates.len() == 1 {
                let ghost only = candidates@[0]@;
                proof {
                    assert(names_contain(candidates@, only));
                    assert forall|other: Seq<u8>| #[trigger]
                        is_batch_candidate(batch@, other) implies other == only by {
                        assert(names_contain(candidates@, other));
                    }
                    let chosen = choose|name: Seq<u8>| is_batch_candidate(batch@, name);
                    assert(is_batch_candidate(batch@, only));
                    assert(is_batch_candidate(batch@, chosen));
                }
                let name = candidates.remove(0);
                Ok(name)
            } else {
                proof {
                    let first = candidates@[0]@;
                    let second = candidates@[1]@;
                    assert(names_contain(candidates@, first));
                    assert(names_contain(candidates@, second));
                    assert(shortlex_lt(first, second));
                    crate::bytes::lemma_key_lt_irreflexive(first);
                    assert(first != second);
                    assert(is_batch_candidate(batch@, first));
                    assert(is_batch_candidate(batch@, second));
                }
                Err(UserError::MultiplePrimaryKeyCandidatesFound { candidates })
            }
        },
    }
}

} // verus!
