//! The settings of an index that decide what is extracted from a document.

use crate::bytes::keys_equal;
use crate::documents::FieldId;
use crate::fields::FieldsIdsMap;
use vstd::prelude::*;

verus! {

/// Words longer than this many bytes are not indexed.
pub const MAX_WORD_LENGTH: usize = 250;

/// The number of positions of a field that are indexed when the settings
/// set no other cap.
pub const DEFAULT_MAX_POSITIONS_PER_ATTRIBUTES: u32 = 65536;

/// What the extraction reads from the settings of the index.
#[derive(Debug, Clone)]
pub struct Settings {
    /// The names of the fields whose words are indexed; every field when
    /// the list is absent.
    pub searchable_fields: Option<Vec<Vec<u8>>>,
    /// The names of the searchable fields whose words go to the database
    /// of exact words.
    pub exact_attributes: Vec<Vec<u8>>,
    /// The names of the fields that are indexed as facets.
    pub filterable_fields: Vec<Vec<u8>>,
    /// The words, in lower case, that are never indexed.
    pub stop_words: Vec<Vec<u8>>,
    /// Bytes that separate words even where they are letters or digits.
    pub separators: Vec<u8>,
    /// Terms, in lower case, that are kept as one word although they hold
    /// separators.
    pub dictionary: Vec<Vec<u8>>,
    /// How many positions of a field are indexed, at most 65536.
    pub max_positions_per_attributes: u32,
}

/// `name` is one of `names`.
pub open spec fn names_contain(names: Seq<Vec<u8>>, name: Seq<u8>) -> bool {
    exists|i: int| 0 <= i < names.len() && (#[trigger] names[i])@ == name
}

/// Whether `name` is one of `names`.
pub fn contains_name(names: &Vec<Vec<u8>>, name: &[u8]) -> (found: bool)
    ensures
        found == names_contain(names@, name@),
{
    let mut i: usize = 0;
    while i < names.len()
        invariant
            i <= names.len(),
            forall|j: int| 0 <= j < i ==> (#[trigger] names@[j])@ != name@,
        decreases names.len() - i,
    {
        if keys_equal(names[i].as_slice(), name) {
            return true;
        }
        i += 1;
    }
    false
}

/// `name` is the field `path` or a field within it: `path`, a dot, and
/// the rest of the way to the field.
pub open spec fn is_under(path: Seq<u8>, name: Seq<u8>) -> bool {
    name == path || (name.len() > path.len() && name.subrange(0, path.len() as int) == path
        && name[path.len() as int] == 46u8)
}

/// `name` is one of the fields `names` or a field within one of them.
pub open spec fn names_cover(names: Seq<Vec<u8>>, name: Seq<u8>) -> bool {
    exists|i: int| 0 <= i < names.len() && is_under((#[trigger] names[i])@, name)
}

/// Whether `name` is the field `path` or a field within it.
pub fn under(path: &[u8], name: &[u8]) -> (found: bool)
    ensures
        found == is_under(path@, name@),
{
    if name.len() == path.len() {
        keys_equal(name, path)
    } else if name.len() > path.len() {
        crate::bytes::starts_with(name, path) && name[path.len()] == 46
    } else {
        false
    }
}

/// Whether `name` is one of the fields `names` or a field within one of
/// them.
pub fn covers_name(names: &Vec<Vec<u8>>, name: &[u8]) -> (found: bool)
    ensures
        found == names_cover(names@, name@),
{
    let mut i: usize = 0;
    while i < names.len()
        invariant
            i <= names.len(),
            forall|j: int| 0 <= j < i ==> !is_under((#[trigger] names@[j])@, name@),
        decreases names.len() - i,
    {
        if under(names[i].as_slice(), name) {
            return true;
        }
        i += 1;
    }
    false
}

impl Settings {
    /// The words of field `id` are indexed: every field is searchable
    /// where no list is set, and else the listed fields and the fields
    /// within them.
    pub open spec fn is_searchable(&self, fields: Seq<Seq<u8>>, id: FieldId) -> bool {
        id < fields.len() && match self.searchable_fields {
            Some(names) => names_cover(names@, fields[id as int]),
            None => true,
        }
    }

    /// The words of field `id` go to the database of exact words.
    pub open spec fn is_exact(&self, fields: Seq<Seq<u8>>, id: FieldId) -> bool {
        id < fields.len() && names_contain(self.exact_attributes@, fields[id as int])
    }

    /// Field `id` is indexed as a facet: it is one of the filterable
    /// fields or a field within one of them.
    pub open spec fn is_filterable(&self, fields: Seq<Seq<u8>>, id: FieldId) -> bool {
        id < fields.len() && names_cover(self.filterable_fields@, fields[id as int])
    }

    /// `word` is a stop word.
    pub open spec fn is_stop_word(&self, word: Seq<u8>) -> bool {
        names_contain(self.stop_words@, word)
    }

    /// The settings of a new index: every field is searchable, none is a
    /// facet, and no word is left out.
    pub fn new() -> (settings: Self)
        ensures
            settings.searchable_fields.is_none(),
            settings.exact_attributes@.len() == 0,
            settings.filterable_fields@.len() == 0,
            settings.stop_words@.len() == 0,
            settings.separators@.len() == 0,
            settings.dictionary@.len() == 0,
            settings.max_positions_per_attributes == DEFAULT_MAX_POSITIONS_PER_ATTRIBUTES,
    {
        Settings {
            searchable_fields: None,
            exact_attributes: Vec::new(),
            filterable_fields: Vec::new(),
            stop_words: Vec::new(),
            separators: Vec::new(),
            dictionary: Vec::new(),
            max_positions_per_attributes: DEFAULT_MAX_POSITIONS_PER_ATTRIBUTES,
        }
    }

    /// Whether the words of field `id` are indexed.
    pub fn searchable(&self, fields: &FieldsIdsMap, id: FieldId) -> (found: bool)
        ensures
            found == self.is_searchable(fields@, id),
    {
        match fields.name(id) {
            Some(name) => match &self.searchable_fields {
                Some(names) => covers_name(names, name.as_slice()),
                None => true,
            },
            None => false,
        }
    }

    /// Whether the words of field `id` go to the database of exact words.
    pub fn exact(&self, fields: &FieldsIdsMap, id: FieldId) -> (found: bool)
        ensures
            found == self.is_exact(fields@, id),
    {
        match fields.name(id) {
            Some(name) => contains_name(&self.exact_attributes, name.as_slice()),
            None => false,
        }
    }

    /// Whether field `id` is indexed as a facet.
    pub fn filterable(&self, fields: &FieldsIdsMap, id: FieldId) -> (found: bool)
        ensures
            found == self.is_filterable(fields@, id),
    {
        match fields.name(id) {
            Some(name) => covers_name(&self.filterable_fields, name.as_slice()),
            None => false,
        }
    }

    /// The fields of the catalogue that are indexed as facets, by
    /// increasing id.
    pub fn faceted_fields(&self, fields: &FieldsIdsMap) -> (ids: Vec<FieldId>)
        requires
            fields.wf(),
        ensures
            forall|a: int, b: int| 0 <= a < b < ids@.len() ==> ids@[a] < ids@[b],
            forall|id: FieldId| ids@.contains(id) <==> self.is_filterable(fields@, id),
    {
        let mut ids: Vec<FieldId> = Vec::new();
        let count = fields.len();
        let mut next: usize = 0;
        proof {
            fields.lemma_wf();
        }
        while next < count
            invariant
                next <= count,
                count == fields@.len(),
                count <= crate::fields::MAX_FIELDS,
                forall|a: int, b: int| 0 <= a < b < ids@.len() ==> ids@[a] < ids@[b],
                forall|a: int| 0 <= a < ids@.len() ==> ids@[a] < next,
                forall|id: FieldId|
                    ids@.contains(id) <==> id < next && self.is_filterable(fields@, id),
            decreases count - next,
        {
            let id = next as FieldId;
            let ghost before = ids@;
            if self.filterable(fields, id) {
                ids.push(id);
                proof {
                    assert(ids@[before.len() as int] == id);
                    assert forall|other: FieldId|
                        ids@.contains(other) <==> other < next + 1 && self.is_filterable(
                            fields@,
                            other,
                        ) by {
                        if before.contains(other) {
                            let a = before.index_of(other);
                            assert(ids@[a] == other);
                        }
                        if ids@.contains(other) && other != id {
                            let a = ids@.index_of(other);
                            assert(before[a] == other);
                        }
                    }
                }
            }
            next += 1;
        }
        ids
    }

    /// The fields of the catalogue whose words are indexed, by
    /// increasing id.
    pub fn searchable_fields_ids(&self, fields: &FieldsIdsMap) -> (ids: Vec<FieldId>)
        requires
            fields.wf(),
        ensures
            forall|a: int, b: int| 0 <= a < b < ids@.len() ==> ids@[a] < ids@[b],
            forall|id: FieldId| ids@.contains(id) <==> self.is_searchable(fields@, id),
    {
        let mut ids: Vec<FieldId> = Vec::new();
        let count = fields.len();
        let mut next: usize = 0;
        proof {
            fields.lemma_wf();
        }
        while next < count
            invariant
                next <= count,
                count == fields@.len(),
                count <= crate::fields::MAX_FIELDS,
                forall|a: int, b: int| 0 <= a < b < ids@.len() ==> ids@[a] < ids@[b],
                forall|a: int| 0 <= a < ids@.len() ==> ids@[a] < next,
                forall|id: FieldId|
                    ids@.contains(id) <==> id < next && self.is_searchable(fields@, id),
            decreases count - next,
        {
            let id = next as FieldId;
            let ghost before = ids@;
            if self.searchable(fields, id) {
                ids.push(id);
                proof {
                    assert(ids@[before.len() as int] == id);
                    assert forall|other: FieldId|
                        ids@.contains(other) <==> other < next + 1 && self.is_searchable(
                            fields@,
                            other,
                        ) by {
                        if before.contains(other) {
                            let a = before.index_of(other);
                            assert(ids@[a] == other);
                        }
                        if ids@.contains(other) && other != id {
                            let a = ids@.index_of(other);
                            assert(before[a] == other);
                        }
                    }
                }
            }
            next += 1;
        }
        ids
    }
}

} // verus!
