//! What each database holds of a document: the keys under which the
//! document is listed, and the extraction of those keys from chunks of
//! documents.

use crate::bytes::copy_bytes;
use crate::documents::{encode_field_id, field_key, Document, DocumentId, FieldId};
use crate::fields::FieldsIdsMap;
use crate::postings::Postings;
use crate::settings::{contains_name, names_contain, Settings, MAX_WORD_LENGTH};
use crate::sorter::{sort_entries, KeyEntry};
use crate::tokenizer::{normalize_range, normalized, tokenize, tokens, words_of};
use vstd::prelude::*;

verus! {

/// Two words are listed as a pair when at most this many positions lie
/// between the first and the second.
pub const MAX_PROXIMITY: usize = 7;

/// Facet strings longer than this many bytes are not indexed.
pub const MAX_FACET_VALUE_LENGTH: usize = 468;

/// The posting databases that are filled from the documents.
#[derive(Clone, Copy, Debug, PartialEq, Eq, Structural)]
pub enum Database {
    /// word → documents, for the searchable fields that are not exact.
    WordDocids,
    /// word → documents, for the exact attributes.
    ExactWordDocids,
    /// word, field → documents.
    WordFidDocids,
    /// word, position in the field → documents.
    WordPositionDocids,
    /// distance, first word, second word → documents.
    WordPairProximityDocids,
    /// facet field → documents that have the field.
    FacetIdExistsDocids,
    /// facet field → documents in which the field is `null`.
    FacetIdIsNullDocids,
    /// facet field → documents in which the field is an empty string,
    /// array or object.
    FacetIdIsEmptyDocids,
    /// facet field, string value → documents.
    FacetIdStringDocids,
}

/// A document with its internal id and the identifier that its sender
/// gave it.
pub struct StoredDocument {
    pub id: DocumentId,
    pub external_id: Vec<u8>,
    pub document: Document,
}

impl Database {
    /// The database is filled from the words of the searchable fields.
    pub open spec fn is_word_database(self) -> bool {
        self == Database::WordDocids || self == Database::ExactWordDocids || self
            == Database::WordFidDocids || self == Database::WordPositionDocids || self
            == Database::WordPairProximityDocids
    }

    /// Whether the database is filled from the words of the searchable
    /// fields; the others are filled from the facets.
    pub fn holds_words(self) -> (words: bool)
        ensures
            words == self.is_word_database(),
    {
        match self {
            Database::WordDocids => true,
            Database::ExactWordDocids => true,
            Database::WordFidDocids => true,
            Database::WordPositionDocids => true,
            Database::WordPairProximityDocids => true,
            _ => false,
        }
    }
}

/// The word at position `i` of a field is indexed: the position is under
/// the cap, and the word is neither too long nor a stop word.
pub open spec fn token_is_indexed(words: Seq<Seq<u8>>, i: int, settings: &Settings) -> bool {
    &&& 0 <= i < words.len()
    &&& i < settings.max_positions_per_attributes
    &&& i < 65536
    &&& words[i].len() <= MAX_WORD_LENGTH
    &&& !settings.is_stop_word(words[i])
}

/// The key of a pair of words that stand `distance` positions apart.
pub open spec fn pair_key(distance: int, first: Seq<u8>, second: Seq<u8>) -> Seq<u8> {
    seq![distance as u8] + first + seq![0u8] + second
}

/// The key under which `database` lists the word at position `i` of field
/// `id`.
pub open spec fn token_key(database: Database, id: FieldId, words: Seq<Seq<u8>>, i: int) -> Seq<u8> {
    match database {
        Database::WordFidDocids => words[i] + seq![0u8] + field_key(id),
        Database::WordPositionDocids => words[i] + seq![0u8] + field_key(i as u16),
        _ => words[i],
    }
}

/// The serialized value `null`.
pub open spec fn null_value() -> Seq<u8> {
    seq![110u8, 117u8, 108u8, 108u8]
}

/// The serialized empty string, a pair of double quotes.
pub open spec fn empty_string_value() -> Seq<u8> {
    seq![34u8, 34u8]
}

/// The serialized empty array, a pair of square brackets.
pub open spec fn empty_array_value() -> Seq<u8> {
    seq![91u8, 93u8]
}

/// The serialized empty object, a pair of braces.
pub open spec fn empty_object_value() -> Seq<u8> {
    seq![123u8, 125u8]
}

/// `value` is a string between double quotes that a facet database takes:
/// not empty and not too long.
pub open spec fn is_facet_string(value: Seq<u8>) -> bool {
    &&& 2 < value.len() <= MAX_FACET_VALUE_LENGTH + 2
    &&& value[0] == 34u8
    &&& value[value.len() - 1] == 34u8
}

/// The key under which a facet database lists a document whose field `id`
/// has the serialized value `value`, if it lists the document at all.
pub open spec fn facet_key(database: Database, id: FieldId, value: Seq<u8>) -> Option<Seq<u8>> {
    match database {
        Database::FacetIdExistsDocids => Some(field_key(id)),
        Database::FacetIdIsNullDocids => if value == null_value() {
            Some(field_key(id))
        } else {
            None
        },
        Database::FacetIdIsEmptyDocids => if value == empty_string_value() || value
            == empty_array_value() || value == empty_object_value() {
            Some(field_key(id))
        } else {
            None
        },
        Database::FacetIdStringDocids => if is_facet_string(value) {
            Some(field_key(id) + normalized(value.subrange(1, value.len() - 1)))
        } else {
            None
        },
        _ => None,
    }
}

/// `database` reads field `id`.
pub open spec fn field_is_selected(
    database: Database,
    settings: &Settings,
    fields: Seq<Seq<u8>>,
    id: FieldId,
) -> bool {
    match database {
        Database::WordDocids => settings.is_searchable(fields, id) && !settings.is_exact(fields, id),
        Database::ExactWordDocids => settings.is_searchable(fields, id) && settings.is_exact(
            fields,
            id,
        ),
        Database::WordFidDocids => settings.is_searchable(fields, id),
        Database::WordPositionDocids => settings.is_searchable(fields, id),
        Database::WordPairProximityDocids => settings.is_searchable(fields, id),
        _ => settings.is_filterable(fields, id),
    }
}

/// `database` lists under `key` a document whose field `id` has the
/// serialized value `value`.
pub open spec fn key_in_field(
    database: Database,
    settings: &Settings,
    id: FieldId,
    value: Seq<u8>,
    key: Seq<u8>,
) -> bool {
    let words = tokens(value, settings);
    if database == Database::WordPairProximityDocids {
        exists|i: int, j: int|
            token_is_indexed(words, i, settings) && token_is_indexed(words, j, settings) && i < j
                <= i + MAX_PROXIMITY && key == #[trigger] pair_key(j - i, words[i], words[j])
    } else if database.is_word_database() {
        exists|i: int|
            token_is_indexed(words, i, settings) && key == #[trigger] token_key(
                database,
                id,
                words,
                i,
            )
    } else {
        facet_key(database, id, value) == Some(key)
    }
}

/// `database` lists `document` under `key`.
pub open spec fn key_in_document(
    database: Database,
    settings: &Settings,
    fields: Seq<Seq<u8>>,
    document: Map<FieldId, Seq<u8>>,
    key: Seq<u8>,
) -> bool {
    exists|id: FieldId|
        #![trigger document.contains_key(id)]
        document.contains_key(id) && field_is_selected(database, settings, fields, id)
            && key_in_field(database, settings, id, document[id], key)
}

/// The documents among `documents[from..to]` that `database` lists under
/// `key`.
pub open spec fn chunk_docids(
    database: Database,
    settings: &Settings,
    fields: Seq<Seq<u8>>,
    documents: Seq<StoredDocument>,
    from: int,
    to: int,
    key: Seq<u8>,
) -> Set<DocumentId> {
    Set::new(
        |id: DocumentId|
            exists|n: int|
                from <= n < to && 0 <= n < documents.len() && (#[trigger] documents[n]).id == id
                    && key_in_document(database, settings, fields, documents[n].document@, key),
    )
}

/// Whether `database` reads field `id`.
pub fn field_selected(database: Database, settings: &Settings, fields: &FieldsIdsMap, id: FieldId) -> (selected:
    bool)
    ensures
        selected == field_is_selected(database, settings, fields@, id),
{
    match database {
        Database::WordDocids => settings.searchable(fields, id) && !settings.exact(fields, id),
        Database::ExactWordDocids => settings.searchable(fields, id) && settings.exact(fields, id),
        Database::WordFidDocids => settings.searchable(fields, id),
        Database::WordPositionDocids => settings.searchable(fields, id),
        Database::WordPairProximityDocids => settings.searchable(fields, id),
        _ => settings.filterable(fields, id),
    }
}

fn token_indexed(words: &Vec<Vec<u8>>, i: usize, settings: &Settings) -> (indexed: bool)
    requires
        i < words.len(),
    ensures
        indexed == token_is_indexed(words_of(words@), i as int, settings),
{
    i < 65536 && (i as u64) < (settings.max_positions_per_attributes as u64) && words[i].len()
        <= MAX_WORD_LENGTH && !contains_name(&settings.stop_words, words[i].as_slice())
}

fn append(key: &mut Vec<u8>, bytes: &[u8])
    ensures
        final(key)@ == old(key)@ + bytes@,
{
    let mut i: usize = 0;
    while i < bytes.len()
        invariant
            i <= bytes.len(),
            key@ == old(key)@ + bytes@.subrange(0, i as int),
        decreases bytes.len() - i,
    {
        key.push(bytes[i]);
        proof {
            assert(key@ =~= old(key)@ + bytes@.subrange(0, i + 1));
        }
        i += 1;
    }
    proof {
        assert(bytes@.subrange(0, i as int) =~= bytes@);
    }
}

fn make_token_key(database: Database, id: FieldId, words: &Vec<Vec<u8>>, i: usize) -> (key: Vec<u8>)
    requires
        i < words.len(),
        i < 65536,
    ensures
        key@ == token_key(database, id, words_of(words@), i as int),
{
    let mut key = copy_bytes(words[i].as_slice());
    match database {
        Database::WordFidDocids => {
            key.push(0u8);
            let tail = encode_field_id(id);
            append(&mut key, tail.as_slice());
            proof {
                assert(key@ =~= words@[i as int]@ + seq![0u8] + field_key(id));
            }
        },
        Database::WordPositionDocids => {
            key.push(0u8);
            let tail = encode_field_id(i as u16);
            append(&mut key, tail.as_slice());
            proof {
                assert(key@ =~= words@[i as int]@ + seq![0u8] + field_key(i as u16));
            }
        },
        _ => {},
    }
    key
}

fn make_pair_key(distance: usize, first: &Vec<u8>, second: &Vec<u8>) -> (key: Vec<u8>)
    requires
        distance <= MAX_PROXIMITY,
    ensures
        key@ == pair_key(distance as int, first@, second@),
{
    let mut key: Vec<u8> = Vec::new();
    key.push(distance as u8);
    append(&mut key, first.as_slice());
    key.push(0u8);
    append(&mut key, second.as_slice());
    proof {
        assert(key@ =~= pair_key(distance as int, first@, second@));
    }
    key
}

fn make_facet_key(database: Database, id: FieldId, value: &[u8]) -> (key: Option<Vec<u8>>)
    ensures
        match key {
            Some(bytes) => facet_key(database, id, value@) == Some(bytes@),
            None => facet_key(database, id, value@).is_none(),
        },
{
    let n = value.len();
    match database {
        Database::FacetIdExistsDocids => Some(encode_field_id(id)),
        Database::FacetIdIsNullDocids => {
            if n == 4 && value[0] == 110 && value[1] == 117 && value[2] == 108 && value[3] == 108 {
                proof {
                    assert(value@ =~= null_value());
                }
                Some(encode_field_id(id))
            } else {
                proof {
                    if value@ == null_value() {
                        assert(null_value().len() == 4);
                        assert(null_value()[0] == 110 && null_value()[1] == 117
                            && null_value()[2] == 108
                            && null_value()[3] == 108);
                    }
                }
                None
            }
        },
        Database::FacetIdIsEmptyDocids => {
            if n == 2 && ((value[0] == 34 && value[1] == 34) || (value[0] == 91 && value[1] == 93)
                || (value[0] == 123 && value[1] == 125)) {
                proof {
                    if value[0] == 34 {
                        assert(value@ =~= empty_string_value());
                    } else if value[0] == 91 {
                        assert(value@ =~= empty_array_value());
                    } else {
                        assert(value@ =~= empty_object_value());
                    }
                }
                Some(encode_field_id(id))
            } else {
                proof {
                    assert(empty_string_value().len() == 2 && empty_string_value()[0] == 34
                        && empty_string_value()[1] == 34);
                    assert(empty_array_value().len() == 2 && empty_array_value()[0] == 91
                        && empty_array_value()[1] == 93);
                    assert(empty_object_value().len() == 2 && empty_object_value()[0] == 123
                        && empty_object_value()[1] == 125);
                }
                None
            }
        },
        Database::FacetIdStringDocids => {
            if 2 < n && n <= MAX_FACET_VALUE_LENGTH + 2 && value[0] == 34 && value[n - 1] == 34 {
                let mut key = encode_field_id(id);
                let content = normalize_range(value, 1, n - 1);
                append(&mut key, content.as_slice());
                Some(key)
            } else {
                None
            }
        },
        _ => None,
    }
}

/// The keys under which `database` lists a document whose field `id` has
/// the serialized value `value`.
pub fn extract_field_keys(database: Database, settings: &Settings, id: FieldId, value: &[u8]) -> (keys:
    Vec<Vec<u8>>)
    ensures
        forall|key: Seq<u8>| #[trigger]
            names_contain(keys@, key) <==> key_in_field(database, settings, id, value@, key),
{
    let mut keys: Vec<Vec<u8>> = Vec::new();
    if !database.holds_words() {
        match make_facet_key(database, id, value) {
            Some(key) => {
                let ghost stored = key@;
                keys.push(key);
                proof {
                    assert(keys@[0]@ == stored);
                    assert forall|other: Seq<u8>| #[trigger]
                        names_contain(keys@, other) <==> key_in_field(
                            database,
                            settings,
                            id,
                            value@,
                            other,
                        ) by {
                        if other == stored {
                            assert(keys@[0]@ == other);
                        }
                    }
                }
            },
            None => {},
        }
        return keys;
    }
    let words = tokenize(value, settings);
    let ghost all = words_of(words@);
    let pairs = matches!(database, Database::WordPairProximityDocids);
    let mut i: usize = 0;
    while i < words.len()
        invariant
            i <= words.len(),
            all == words_of(words@),
            all == tokens(value@, settings),
            database.is_word_database(),
            pairs == (database == Database::WordPairProximityDocids),
            !pairs ==> forall|key: Seq<u8>| #[trigger]
                names_contain(keys@, key) <==> exists|a: int|
                    a < i && token_is_indexed(all, a, settings) && key == #[trigger] token_key(
                        database,
                        id,
                        all,
                        a,
                    ),
            pairs ==> forall|key: Seq<u8>| #[trigger]
                names_contain(keys@, key) <==> exists|a: int, b: int|
                    a < i && token_is_indexed(all, a, settings) && token_is_indexed(
                        all,
                        b,
                        settings,
                    ) && a < b <= a + MAX_PROXIMITY && key == #[trigger] pair_key(
                        b - a,
                        all[a],
                        all[b],
                    ),
        decreases words.len() - i,
    {
        if token_indexed(&words, i, settings) {
            if pairs {
                let mut j: usize = i + 1;
                while j < words.len() && j - i <= MAX_PROXIMITY
                    invariant
                        i < j <= words.len(),
                        j <= i + MAX_PROXIMITY + 1,
                        all == words_of(words@),
                        token_is_indexed(all, i as int, settings),
                        forall|key: Seq<u8>| #[trigger]
                            names_contain(keys@, key) <==> (exists|a: int, b: int|
                                a < i && token_is_indexed(all, a, settings) && token_is_indexed(
                                    all,
                                    b,
                                    settings,
                                ) && a < b <= a + MAX_PROXIMITY && key == #[trigger] pair_key(
                                    b - a,
                                    all[a],
                                    all[b],
                                )) || (exists|b: int|
                                i < b < j && token_is_indexed(all, b, settings) && key
                                    == #[trigger] pair_key(b - i, all[i as int], all[b])),
                    decreases words.len() - j,
                {
                    if token_indexed(&words, j, settings) {
                        let ghost before = keys@;
                        let key = make_pair_key(j - i, &words[i], &words[j]);
                        let ghost stored = key@;
                        keys.push(key);
                        proof {
                            assert(keys@[before.len() as int]@ == stored);
                            assert forall|other: Seq<u8>| #[trigger]
                                names_contain(keys@, other) <==> names_contain(before, other)
                                    || other == stored by {
                                if names_contain(before, other) {
                                    let n = choose|n: int|
                                        0 <= n < before.len() && (#[trigger] before[n])@ == other;
                                    assert(keys@[n]@ == other);
                                }
                                if names_contain(keys@, other) {
                                    let n = choose|n: int|
                                        0 <= n < keys@.len() && (#[trigger] keys@[n])@ == other;
                                    if n < before.len() {
                                        assert(before[n]@ == other);
                                    }
                                }
                            }
                            assert(stored == pair_key(j - i, all[i as int], all[j as int]));
                        }
                    }
                    j += 1;
                }
                proof {
                    assert forall|key: Seq<u8>| #[trigger]
                        names_contain(keys@, key) <==> exists|a: int, b: int|
                            a < i + 1 && token_is_indexed(all, a, settings) && token_is_indexed(
                                all,
                                b,
                                settings,
                            ) && a < b <= a + MAX_PROXIMITY && key == #[trigger] pair_key(
                                b - a,
                                all[a],
                                all[b],
                            ) by {
                        if exists|a: int, b: int|
                            a < i + 1 && token_is_indexed(all, a, settings) && token_is_indexed(
                                all,
                                b,
                                settings,
                            ) && a < b <= a + MAX_PROXIMITY && key == #[trigger] pair_key(
                                b - a,
                                all[a],
                                all[b],
                            ) {
                            let (a, b) = choose|a: int, b: int|
                                a < i + 1 && token_is_indexed(all, a, settings) && token_is_indexed(
                                    all,
                                    b,
                                    settings,
                                ) && a < b <= a + MAX_PROXIMITY && key == #[trigger] pair_key(
                                    b - a,
                                    all[a],
                                    all[b],
                                );
                            if a == i {
                                assert(i < b < j && token_is_indexed(all, b, settings) && key
                                    == pair_key(b - i, all[i as int], all[b]));
                            }
                        }
                    }
                }
            } else {
                let ghost before = keys@;
                let key = make_token_key(database, id, &words, i);
                let ghost stored = key@;
                keys.push(key);
                proof {
                    assert(keys@[before.len() as int]@ == stored);
                    assert forall|other: Seq<u8>| #[trigger]
                        names_contain(keys@, other) <==> names_contain(before, other) || other
                            == stored by {
                        if names_contain(before, other) {
                            let n = choose|n: int|
                                0 <= n < before.len() && (#[trigger] before[n])@ == other;
                            assert(keys@[n]@ == other);
                        }
                        if names_contain(keys@, other) {
                            let n = choose|n: int|
                                0 <= n < keys@.len() && (#[trigger] keys@[n])@ == other;
                            if n < before.len() {
                                assert(before[n]@ == other);
                            }
                        }
                    }
                    assert(stored == token_key(database, id, all, i as int));
                }
            }
        }
        i += 1;
    }
    keys
}

/// The keys under which `database` lists `document`.
pub fn extract_document_keys(
    database: Database,
    settings: &Settings,
    fields: &FieldsIdsMap,
    document: &Document,
) -> (keys: Vec<Vec<u8>>)
    requires
        document.wf(),
    ensures
        forall|key: Seq<u8>| #[trigger]
            names_contain(keys@, key) <==> key_in_document(
                database,
                settings,
                fields@,
                document@,
                key,
            ),
{
    let mut keys: Vec<Vec<u8>> = Vec::new();
    let mut n: usize = 0;
    while n < document.len()
        invariant
            document.wf(),
            n <= document.field_ids().len(),
            forall|key: Seq<u8>| #[trigger]
                names_contain(keys@, key) <==> exists|m: int|
                    0 <= m < n && field_is_selected(
                        database,
                        settings,
                        fields@,
                        #[trigger] document.field_ids()[m],
                    ) && key_in_field(
                        database,
                        settings,
                        document.field_ids()[m],
                        document@[document.field_ids()[m]],
                        key,
                    ),
        decreases document.field_ids().len() - n,
    {
        let id = document.field_id_at(n);
        if field_selected(database, settings, fields, id) {
            let value = document.value_at(n);
            let mut found = extract_field_keys(database, settings, id, value.as_slice());
            let ghost before = keys@;
            let ghost added = found@;
            keys.append(&mut found);
            proof {
                assert forall|other: Seq<u8>| #[trigger]
                    names_contain(keys@, other) <==> names_contain(before, other) || names_contain(
                        added,
                        other,
                    ) by {
                    if names_contain(before, other) {
                        let a = choose|a: int| 0 <= a < before.len()
                            && (#[trigger] before[a])@ == other;
                        assert(keys@[a]@ == other);
                    }
                    if names_contain(added, other) {
                        let a = choose|a: int| 0 <= a < added.len() && (#[trigger] added[a])@ == other;
                        assert(keys@[before.len() + a]@ == other);
                    }
                    if names_contain(keys@, other) {
                        let a = choose|a: int| 0 <= a < keys@.len() && (#[trigger] keys@[a])@ == other;
                        if a < before.len() {
                            assert(before[a]@ == other);
                        } else {
                            assert(added[a - before.len()]@ == other);
                        }
                    }
                }
                assert forall|key: Seq<u8>| #[trigger]
                    names_contain(keys@, key) <==> exists|m: int|
                        0 <= m < n + 1 && field_is_selected(
                            database,
                            settings,
                            fields@,
                            #[trigger] document.field_ids()[m],
                        ) && key_in_field(
                            database,
                            settings,
                            document.field_ids()[m],
                            document@[document.field_ids()[m]],
                            key,
                        ) by {
                    if names_contain(added, key) {
                        assert(field_is_selected(
                            database,
                            settings,
                            fields@,
                            document.field_ids()[n as int],
                        ));
                    }
                }
            }
        }
        n += 1;
    }
    proof {
        document.lemma_field_ids();
        assert forall|key: Seq<u8>| #[trigger]
            names_contain(keys@, key) <==> key_in_document(
                database,
                settings,
                fields@,
                document@,
                key,
            ) by {
            if names_contain(keys@, key) {
                let m = choose|m: int|
                    0 <= m < n && field_is_selected(
                        database,
                        settings,
                        fields@,
                        #[trigger] document.field_ids()[m],
                    ) && key_in_field(
                        database,
                        settings,
                        document.field_ids()[m],
                        document@[document.field_ids()[m]],
                        key,
                    );
                let id = document.field_ids()[m];
                assert(document.field_ids().contains(id));
                assert(document@.contains_key(id));
            }
            if key_in_document(database, settings, fields@, document@, key) {
                let id = choose|id: FieldId|
                    #![trigger document@.contains_key(id)]
                    document@.contains_key(id) && field_is_selected(
                        database,
                        settings,
                        fields@,
                        id,
                    ) && key_in_field(database, settings, id, document@[id], key);
                assert(document.field_ids().contains(id));
                let m = document.field_ids().index_of(id);
                assert(0 <= m < n && document.field_ids()[m] == id);
            }
        }
    }
    keys
}

/// The documents that `entries` lists under `key`.
pub open spec fn entries_docids(entries: Seq<KeyEntry>, key: Seq<u8>) -> Set<DocumentId> {
    Set::new(
        |id: DocumentId|
            exists|i: int|
                0 <= i < entries.len() && (#[trigger] entries[i]).key@ == key && entries[i].id == id,
    )
}

/// The documents that the first `upto` positions of `order` list under
/// `key`.
pub open spec fn ordered_docids(
    entries: Seq<KeyEntry>,
    order: Seq<usize>,
    upto: int,
    key: Seq<u8>,
) -> Set<DocumentId> {
    Set::new(
        |id: DocumentId|
            exists|a: int|
                0 <= a < upto && a < order.len() && entries[(#[trigger] order[a]) as int].key@ == key
                    && entries[order[a] as int].id == id,
    )
}

/// Lists document `id` under each of `keys`, which are taken.
fn take_keys(entries: &mut Vec<KeyEntry>, keys: Vec<Vec<u8>>, id: DocumentId)
    ensures
        forall|key: Seq<u8>| #[trigger]
            entries_docids(final(entries)@, key) == if names_contain(keys@, key) {
                entries_docids(old(entries)@, key).insert(id)
            } else {
                entries_docids(old(entries)@, key)
            },
{
    let ghost all = keys@;
    let mut rest = keys;
    proof {
        assert(all.subrange(all.len() as int, all.len() as int) =~= Seq::<Vec<u8>>::empty());
    }
    while rest.len() > 0
        invariant
            rest@ == all.subrange(0, rest@.len() as int),
            rest@.len() <= all.len(),
            forall|key: Seq<u8>| #[trigger]
                entries_docids(entries@, key) == if names_contain(
                    all.subrange(rest@.len() as int, all.len() as int),
                    key,
                ) {
                    entries_docids(old(entries)@, key).insert(id)
                } else {
                    entries_docids(old(entries)@, key)
                },
        decreases rest@.len(),
    {
        let ghost before = entries@;
        let ghost at = rest@.len() - 1;
        let ghost taken = all.subrange(at + 1, all.len() as int);
        let ghost more = all.subrange(at, all.len() as int);
        let key = rest.pop().unwrap();
        proof {
            assert(key == all[at]);
            assert(rest@ =~= all.subrange(0, at));
        }
        entries.push(KeyEntry { key, id });
        proof {
            assert forall|other: Seq<u8>| #[trigger]
                entries_docids(entries@, other) == if names_contain(more, other) {
                    entries_docids(old(entries)@, other).insert(id)
                } else {
                    entries_docids(old(entries)@, other)
                } by {
                let earlier = entries_docids(before, other);
                let later = entries_docids(entries@, other);
                assert(earlier == if names_contain(taken, other) {
                    entries_docids(old(entries)@, other).insert(id)
                } else {
                    entries_docids(old(entries)@, other)
                });
                assert forall|listed: DocumentId|
                    later.contains(listed) <==> earlier.contains(listed) || (other == key@ && listed
                        == id) by {
                    if earlier.contains(listed) {
                        let i = choose|i: int|
                            0 <= i < before.len() && (#[trigger] before[i]).key@ == other
                                && before[i].id
                                == listed;
                        assert(entries@[i] == before[i]);
                    }
                    if other == key@ && listed == id {
                        assert(entries@[before.len() as int].key@ == other);
                    }
                    if later.contains(listed) {
                        let i = choose|i: int|
                            0 <= i < entries@.len() && (#[trigger] entries@[i]).key@ == other
                                && entries@[i].id == listed;
                        if i < before.len() {
                            assert(before[i] == entries@[i]);
                        }
                    }
                }
                if names_contain(taken, other) {
                    let i = choose|i: int| 0 <= i < taken.len() && (#[trigger] taken[i])@ == other;
                    assert(more[i + 1]@ == other);
                }
                if other == key@ {
                    assert(more[0]@ == other);
                    assert(later =~= earlier.insert(id));
                    assert(entries_docids(old(entries)@, other).insert(id).insert(id)
                        =~= entries_docids(old(entries)@, other).insert(id));
                } else {
                    if names_contain(more, other) {
                        let i = choose|i: int| 0 <= i < more.len() && (#[trigger] more[i])@ == other;
                        assert(taken[i - 1]@ == other);
                    }
                    assert(later =~= earlier);
                }
            }
        }
    }
    proof {
        assert(all.subrange(0, all.len() as int) =~= all);
    }
}

/// The findings of `database` among the documents `documents[from..to]`.
fn collect_entries(
    database: Database,
    settings: &Settings,
    fields: &FieldsIdsMap,
    documents: &Vec<StoredDocument>,
    from: usize,
    to: usize,
) -> (entries: Vec<KeyEntry>)
    requires
        from <= to <= documents.len(),
        forall|n: int| 0 <= n < documents.len() ==> (#[trigger] documents[n]).document.wf(),
    ensures
        forall|key: Seq<u8>| #[trigger]
            entries_docids(entries@, key) == chunk_docids(
                database,
                settings,
                fields@,
                documents@,
                from as int,
                to as int,
                key,
            ),
{
    let mut entries: Vec<KeyEntry> = Vec::new();
    let mut n: usize = from;
    proof {
        assert forall|key: Seq<u8>| #[trigger]
            entries_docids(entries@, key) == chunk_docids(
                database,
                settings,
                fields@,
                documents@,
                from as int,
                from as int,
                key,
            ) by {
            assert(entries_docids(entries@, key) =~= Set::<DocumentId>::empty());
            assert(chunk_docids(
                database,
                settings,
                fields@,
                documents@,
                from as int,
                from as int,
                key,
            ) =~= Set::<DocumentId>::empty());
        }
    }
    while n < to
        invariant
            from <= n <= to,
            to <= documents.len(),
            forall|m: int| 0 <= m < documents.len() ==> (#[trigger] documents[m]).document.wf(),
            forall|key: Seq<u8>| #[trigger]
                entries_docids(entries@, key) == chunk_docids(
                    database,
                    settings,
                    fields@,
                    documents@,
                    from as int,
                    n as int,
                    key,
                ),
        decreases to - n,
    {
        let ghost before = entries@;
        let keys = extract_document_keys(database, settings, fields, &documents[n].document);
        let ghost found = keys@;
        take_keys(&mut entries, keys, documents[n].id);
        proof {
            assert forall|key: Seq<u8>| #[trigger]
                entries_docids(entries@, key) == chunk_docids(
                    database,
                    settings,
                    fields@,
                    documents@,
                    from as int,
                    n + 1,
                    key,
                ) by {
                let shorter = chunk_docids(
                    database,
                    settings,
                    fields@,
                    documents@,
                    from as int,
                    n as int,
                    key,
                );
                let longer = chunk_docids(
                    database,
                    settings,
                    fields@,
                    documents@,
                    from as int,
                    n + 1,
                    key,
                );
                assert(entries_docids(before, key) == shorter);
                let listed = key_in_document(
                    database,
                    settings,
                    fields@,
                    documents@[n as int].document@,
                    key,
                );
                assert(names_contain(found, key) == listed);
                assert forall|id: DocumentId| longer.contains(id) <==> shorter.contains(id) || (
                listed && id == documents@[n as int].id) by {
                    if shorter.contains(id) {
                        let m = choose|m: int|
                            from <= m < n && 0 <= m < documents@.len() && (
                            #[trigger] documents@[m]).id == id && key_in_document(
                                database,
                                settings,
                                fields@,
                                documents@[m].document@,
                                key,
                            );
                        assert(from <= m < n + 1);
                    }
                    if listed && id == documents@[n as int].id {
                        assert(from <= n < n + 1 && documents@[n as int].id == id);
                    }
                }
                if listed {
                    assert(longer =~= shorter.insert(documents@[n as int].id));
                } else {
                    assert(longer =~= shorter);
                }
            }
        }
        n += 1;
    }
    entries
}

/// The chunk that lists each document under the keys that `entries` has
/// found for it.
pub fn build_chunk(entries: &Vec<KeyEntry>) -> (chunk: Postings)
    ensures
        chunk.wf(),
        forall|key: Seq<u8>| #[trigger] chunk.docids(key) == entries_docids(entries@, key),
{
    // The findings are written by increasing key, so that each of them is
    // appended to the chunk or added to its last key.
    let order = sort_entries(entries);
    let mut chunk = Postings::new();
    let mut a: usize = 0;
    proof {
        assert forall|key: Seq<u8>| #[trigger]
            chunk.docids(key) == ordered_docids(entries@, order@, 0, key) by {
            assert(ordered_docids(entries@, order@, 0, key) =~= Set::<DocumentId>::empty());
        }
    }
    while a < order.len()
        invariant
            a <= order@.len(),
            chunk.wf(),
            crate::sorter::is_order_of(entries@, order@),
            forall|key: Seq<u8>| #[trigger]
                chunk.docids(key) == ordered_docids(entries@, order@, a as int, key),
        decreases order@.len() - a,
    {
        let ghost before = chunk;
        let entry = &entries[order[a]];
        chunk.add_document(entry.key.as_slice(), entry.id);
        proof {
            assert forall|key: Seq<u8>| #[trigger]
                chunk.docids(key) == ordered_docids(entries@, order@, a + 1, key) by {
                let shorter = ordered_docids(entries@, order@, a as int, key);
                let longer = ordered_docids(entries@, order@, a + 1, key);
                assert(before.docids(key) == shorter);
                assert forall|id: DocumentId| longer.contains(id) <==> shorter.contains(id) || (key
                    == entry.key@ && id == entry.id) by {
                    if shorter.contains(id) {
                        let b = choose|b: int|
                            0 <= b < a && b < order@.len() && entries@[(
                            #[trigger] order@[b]) as int].key@ == key && entries@[order@[b] as int].id
                                == id;
                        assert(0 <= b < a + 1);
                    }
                    if key == entry.key@ && id == entry.id {
                        assert(0 <= a < a + 1 && entries@[order@[a as int] as int].key@ == key);
                    }
                }
                if key == entry.key@ {
                    assert(longer =~= shorter.insert(entry.id));
                } else {
                    assert(longer =~= shorter);
                }
            }
        }
        a += 1;
    }
    proof {
        assert forall|key: Seq<u8>| #[trigger] chunk.docids(key) == entries_docids(entries@, key) by {
            let listed = ordered_docids(entries@, order@, a as int, key);
            let found = entries_docids(entries@, key);
            assert forall|id: DocumentId| listed.contains(id) == found.contains(id) by {
                if found.contains(id) {
                    let i = choose|i: int|
                        0 <= i < entries@.len() && (#[trigger] entries@[i]).key@ == key
                            && entries@[i].id == id;
                    assert(order@.contains(i as usize));
                    let b = order@.index_of(i as usize);
                    assert(0 <= b < a && order@[b] == i);
                }
            }
            assert(listed =~= found);
        }
    }
    chunk
}

/// What `database` holds of the documents `documents[from..to]`.
pub fn extract_chunk(
    database: Database,
    settings: &Settings,
    fields: &FieldsIdsMap,
    documents: &Vec<StoredDocument>,
    from: usize,
    to: usize,
) -> (chunk: Postings)
    requires
        from <= to <= documents.len(),
        forall|n: int| 0 <= n < documents.len() ==> (#[trigger] documents[n]).document.wf(),
    ensures
        chunk.wf(),
        forall|key: Seq<u8>| #[trigger]
            chunk.docids(key) == chunk_docids(
                database,
                settings,
                fields@,
                documents@,
                from as int,
                to as int,
                key,
            ),
{
    let entries = collect_entries(database, settings, fields, documents, from, to);
    build_chunk(&entries)
}

} // verus!
