//! The index: the documents, their identifiers and the posting databases,
//! as one write transaction sees them.
//!
//! An `Index` is the in-memory view of the store. Whoever owns it decides
//! what becomes of its changes; nothing here writes them anywhere.

use crate::bitmap::{
    bitmap_difference_with, bitmap_ids, bitmap_insert, bitmap_len, bitmap_new, bitmap_remove,
    bitmap_to_vec, lemma_ids_finite,
};
use crate::bytes::copy_bytes;
use crate::documents::{Document, DocumentId, FieldId};
use crate::extract::Database;
use crate::facet_values::{without_documents, FacetValues};
use crate::fields::FieldsIdsMap;
use crate::postings::Postings;
use crate::prefix::grouped_by_first_byte;
use crate::prefix_databases::{update_prefix_database, updated_docids, KeyShape};
use crate::settings::Settings;
use crate::sorted_map::ByteMap;
use roaring::RoaringBitmap;
use std::collections::HashMap;
use vstd::prelude::*;

verus! {

broadcast use vstd::std_specs::hash::group_hash_axioms;

/// The number of databases of an index that are filled from the
/// documents.
pub const POSTING_DATABASE_COUNT: usize = 9;

/// The number of steps that the merge of the posting databases has in the
/// progress of a run.
pub const MERGED_DATABASE_COUNT: usize = 7;

/// The number of databases that are derived from the word prefixes.
pub const PREFIX_DATABASE_COUNT: usize = 5;

/// The number of steps that the progress of a run counts: those of the
/// merge and one for each prefix database.
pub const TOTAL_POSTING_DATABASE_COUNT: usize = MERGED_DATABASE_COUNT + PREFIX_DATABASE_COUNT;

/// The databases that list documents under the frequent prefixes of words.
#[derive(Clone, Copy, Debug, PartialEq, Eq, Structural)]
pub enum PrefixDatabase {
    /// prefix → documents, from the words of `Database::WordDocids`.
    WordPrefixDocids,
    /// prefix → documents, from the words of `Database::ExactWordDocids`.
    ExactWordPrefixDocids,
    /// prefix, field → documents, from `Database::WordFidDocids`.
    WordPrefixFidDocids,
    /// prefix, position → documents, from `Database::WordPositionDocids`.
    WordPrefixPositionDocids,
    /// distance, first word, prefix of the second word → documents, from
    /// `Database::WordPairProximityDocids`.
    WordPrefixPairProximityDocids,
}

/// How documents leave the index.
#[derive(Clone, Copy, Debug, PartialEq, Eq, Structural)]
pub enum DeletionStrategy {
    /// The document is marked as deleted; its id stays in the posting
    /// databases and is not given out again.
    AlwaysSoft,
    /// The id of the document is taken out of every posting database.
    AlwaysHard,
}

impl Default for DeletionStrategy {
    fn default() -> (strategy: Self)
        ensures
            strategy == DeletionStrategy::AlwaysSoft,
    {
        DeletionStrategy::AlwaysSoft
    }
}

/// The ids among the first `upto` of `ids`.
pub open spec fn first_ids(ids: Seq<DocumentId>, upto: int) -> Set<DocumentId> {
    Set::new(|id: DocumentId| exists|j: int| 0 <= j < upto && j < ids.len() && #[trigger] ids[j] == id)
}

/// Where `database` stands among the databases of an index.
pub open spec fn database_position(database: Database) -> int {
    match database {
        Database::WordDocids => 0,
        Database::ExactWordDocids => 1,
        Database::WordFidDocids => 2,
        Database::WordPositionDocids => 3,
        Database::WordPairProximityDocids => 4,
        Database::FacetIdExistsDocids => 5,
        Database::FacetIdIsNullDocids => 6,
        Database::FacetIdIsEmptyDocids => 7,
        Database::FacetIdStringDocids => 8,
    }
}

/// Where `database` stands among the prefix databases of an index.
pub open spec fn prefix_database_position(database: PrefixDatabase) -> int {
    match database {
        PrefixDatabase::WordPrefixDocids => 0,
        PrefixDatabase::ExactWordPrefixDocids => 1,
        PrefixDatabase::WordPrefixFidDocids => 2,
        PrefixDatabase::WordPrefixPositionDocids => 3,
        PrefixDatabase::WordPrefixPairProximityDocids => 4,
    }
}

/// The prefix database that stands at `position`.
pub fn prefix_database_at(position: usize) -> (database: PrefixDatabase)
    requires
        position < PREFIX_DATABASE_COUNT,
    ensures
        prefix_database_position(database) == position,
        database_position(source_of(database)) == position,
{
    if position == 0 {
        PrefixDatabase::WordPrefixDocids
    } else if position == 1 {
        PrefixDatabase::ExactWordPrefixDocids
    } else if position == 2 {
        PrefixDatabase::WordPrefixFidDocids
    } else if position == 3 {
        PrefixDatabase::WordPrefixPositionDocids
    } else {
        PrefixDatabase::WordPrefixPairProximityDocids
    }
}

/// Where the word stands in the keys of a prefix database and of the
/// database that it is built on.
pub open spec fn shape_of(database: PrefixDatabase) -> KeyShape {
    match database {
        PrefixDatabase::WordPrefixDocids => KeyShape::Word,
        PrefixDatabase::ExactWordPrefixDocids => KeyShape::Word,
        PrefixDatabase::WordPrefixFidDocids => KeyShape::WordThenTail,
        PrefixDatabase::WordPrefixPositionDocids => KeyShape::WordThenTail,
        PrefixDatabase::WordPrefixPairProximityDocids => KeyShape::HeadThenWord,
    }
}

/// Where the word stands in the keys of a prefix database.
pub fn key_shape(database: PrefixDatabase) -> (shape: KeyShape)
    ensures
        shape == shape_of(database),
{
    match database {
        PrefixDatabase::WordPrefixDocids => KeyShape::Word,
        PrefixDatabase::ExactWordPrefixDocids => KeyShape::Word,
        PrefixDatabase::WordPrefixFidDocids => KeyShape::WordThenTail,
        PrefixDatabase::WordPrefixPositionDocids => KeyShape::WordThenTail,
        PrefixDatabase::WordPrefixPairProximityDocids => KeyShape::HeadThenWord,
    }
}

/// The database whose words a prefix database is built on.
pub open spec fn source_of(database: PrefixDatabase) -> Database {
    match database {
        PrefixDatabase::WordPrefixDocids => Database::WordDocids,
        PrefixDatabase::ExactWordPrefixDocids => Database::ExactWordDocids,
        PrefixDatabase::WordPrefixFidDocids => Database::WordFidDocids,
        PrefixDatabase::WordPrefixPositionDocids => Database::WordPositionDocids,
        PrefixDatabase::WordPrefixPairProximityDocids => Database::WordPairProximityDocids,
    }
}

/// The database whose words a prefix database is built on.
pub fn source_database(database: PrefixDatabase) -> (source: Database)
    ensures
        source == source_of(database),
{
    match database {
        PrefixDatabase::WordPrefixDocids => Database::WordDocids,
        PrefixDatabase::ExactWordPrefixDocids => Database::ExactWordDocids,
        PrefixDatabase::WordPrefixFidDocids => Database::WordFidDocids,
        PrefixDatabase::WordPrefixPositionDocids => Database::WordPositionDocids,
        PrefixDatabase::WordPrefixPairProximityDocids => Database::WordPairProximityDocids,
    }
}

/// The database that stands at `position`.
pub fn database_at(position: usize) -> (database: Database)
    requires
        position < POSTING_DATABASE_COUNT,
    ensures
        database_position(database) == position,
{
    if position == 0 {
        Database::WordDocids
    } else if position == 1 {
        Database::ExactWordDocids
    } else if position == 2 {
        Database::WordFidDocids
    } else if position == 3 {
        Database::WordPositionDocids
    } else if position == 4 {
        Database::WordPairProximityDocids
    } else if position == 5 {
        Database::FacetIdExistsDocids
    } else if position == 6 {
        Database::FacetIdIsNullDocids
    } else if position == 7 {
        Database::FacetIdIsEmptyDocids
    } else {
        Database::FacetIdStringDocids
    }
}

fn position_of(database: Database) -> (position: usize)
    ensures
        position == database_position(database),
        position < POSTING_DATABASE_COUNT,
{
    match database {
        Database::WordDocids => 0,
        Database::ExactWordDocids => 1,
        Database::WordFidDocids => 2,
        Database::WordPositionDocids => 3,
        Database::WordPairProximityDocids => 4,
        Database::FacetIdExistsDocids => 5,
        Database::FacetIdIsNullDocids => 6,
        Database::FacetIdIsEmptyDocids => 7,
        Database::FacetIdStringDocids => 8,
    }
}

fn prefix_position_of(database: PrefixDatabase) -> (position: usize)
    ensures
        position == prefix_database_position(database),
        position < PREFIX_DATABASE_COUNT,
{
    match database {
        PrefixDatabase::WordPrefixDocids => 0,
        PrefixDatabase::ExactWordPrefixDocids => 1,
        PrefixDatabase::WordPrefixFidDocids => 2,
        PrefixDatabase::WordPrefixPositionDocids => 3,
        PrefixDatabase::WordPrefixPairProximityDocids => 4,
    }
}

/// A document as the index keeps it: under its internal id, with the
/// identifier that its sender gave it.
pub struct Stored {
    pub external_id: Vec<u8>,
    pub document: Document,
}

/// The state of the store within one write transaction.
pub struct Index {
    settings: Settings,
    primary_key: Option<Vec<u8>>,
    fields_ids_map: FieldsIdsMap,
    documents: HashMap<DocumentId, Stored>,
    documents_ids: RoaringBitmap,
    soft_deleted_documents_ids: RoaringBitmap,
    external_documents_ids: ByteMap<DocumentId>,
    databases: Vec<Postings>,
    words_prefixes: ByteMap<()>,
    prefix_databases: Vec<Postings>,
    facet_values: FacetValues,
}

impl Index {
    /// The settings that decide what is extracted.
    pub closed spec fn settings(&self) -> Settings {
        self.settings
    }

    /// The name of the field that identifies a document, once it is known.
    pub closed spec fn primary_key(&self) -> Option<Seq<u8>> {
        match self.primary_key {
            Some(name) => Some(name@),
            None => None,
        }
    }

    /// The field catalogue.
    pub closed spec fn fields(&self) -> Seq<Seq<u8>> {
        self.fields_ids_map@
    }

    /// The ids of the documents of the index.
    pub closed spec fn live(&self) -> Set<DocumentId> {
        bitmap_ids(self.documents_ids)
    }

    /// The ids of the documents that were deleted softly.
    pub closed spec fn soft_deleted(&self) -> Set<DocumentId> {
        bitmap_ids(self.soft_deleted_documents_ids)
    }

    /// The documents of the index, by internal id.
    pub closed spec fn documents(&self) -> Map<DocumentId, Map<FieldId, Seq<u8>>> {
        Map::new(
            |id: DocumentId| self.documents@.contains_key(id),
            |id: DocumentId| self.documents@[id].document@,
        )
    }

    /// The internal id of each document, by the identifier that its sender
    /// gave it.
    pub closed spec fn external_ids(&self) -> Map<Seq<u8>, DocumentId> {
        self.external_documents_ids@
    }

    /// The identifier that the sender of document `id` gave it.
    pub closed spec fn external_id_of(&self, id: DocumentId) -> Seq<u8> {
        self.documents@[id].external_id@
    }

    /// One of the databases that are filled from the documents.
    pub closed spec fn postings(&self, database: Database) -> Postings {
        self.databases@[database_position(database)]
    }

    /// One of the prefix databases.
    pub closed spec fn prefix_postings(&self, database: PrefixDatabase) -> Postings {
        self.prefix_databases@[prefix_database_position(database)]
    }

    /// The frequent prefixes that the prefix databases are built on.
    pub closed spec fn prefixes(&self) -> Set<Seq<u8>> {
        self.words_prefixes@.dom()
    }

    /// The strings of the filterable fields, each under the key of its
    /// field, its document and its normalized form.
    pub closed spec fn facet_values(&self) -> Map<Seq<u8>, Seq<u8>> {
        self.facet_values@
    }

    /// The parts of the index fit together: the stored documents are those
    /// whose ids are listed, no listed id is marked as deleted, and the
    /// external identifiers name each document once.
    pub closed spec fn wf(&self) -> bool {
        &&& self.fields_ids_map.wf()
        &&& self.external_documents_ids.wf()
        &&& self.words_prefixes.wf()
        &&& self.facet_values.wf()
        &&& self.databases@.len() == POSTING_DATABASE_COUNT
        &&& self.prefix_databases@.len() == PREFIX_DATABASE_COUNT
        &&& forall|i: int| 0 <= i < self.databases@.len() ==> (#[trigger] self.databases@[i]).wf()
        &&& forall|i: int|
            0 <= i < self.prefix_databases@.len() ==> (#[trigger] self.prefix_databases@[i]).wf()
        &&& forall|id: DocumentId| #[trigger]
            self.documents@.contains_key(id) <==> bitmap_ids(self.documents_ids).contains(id)
        &&& forall|id: DocumentId| #[trigger]
            self.documents@.contains_key(id) ==> self.documents@[id].document.wf()
        &&& forall|id: DocumentId| #[trigger]
            self.documents@.contains_key(id) ==> self.external_documents_ids@.contains_key(
                self.documents@[id].external_id@,
            ) && self.external_documents_ids@[self.documents@[id].external_id@] == id
        &&& forall|name: Seq<u8>| #[trigger]
            self.external_documents_ids@.contains_key(name) ==> self.documents@.contains_key(
                self.external_documents_ids@[name],
            ) && self.documents@[self.external_documents_ids@[name]].external_id@ == name
        &&& bitmap_ids(self.documents_ids).disjoint(bitmap_ids(self.soft_deleted_documents_ids))
    }

    /// The two indexes differ at most in their posting databases.
    closed spec fn same_but_databases(&self, other: &Index) -> bool {
        &&& self.settings == other.settings
        &&& self.primary_key == other.primary_key
        &&& self.fields_ids_map == other.fields_ids_map
        &&& self.documents == other.documents
        &&& self.documents_ids == other.documents_ids
        &&& self.soft_deleted_documents_ids == other.soft_deleted_documents_ids
        &&& self.external_documents_ids == other.external_documents_ids
        &&& self.words_prefixes == other.words_prefixes
        &&& self.facet_values == other.facet_values
    }

    /// What well-formedness means to a reader of the index.
    pub proof fn lemma_wf(&self)
        requires
            self.wf(),
        ensures
            self.documents().dom() == self.live(),
            self.live().disjoint(self.soft_deleted()),
            forall|database: Database| (#[trigger] self.postings(database)).wf(),
            forall|database: PrefixDatabase| (#[trigger] self.prefix_postings(database)).wf(),
            forall|id: DocumentId| #[trigger]
                self.live().contains(id) ==> self.external_ids().contains_key(
                    self.external_id_of(id),
                ) && self.external_ids()[self.external_id_of(id)] == id,
            forall|name: Seq<u8>| #[trigger]
                self.external_ids().contains_key(name) ==> self.live().contains(
                    self.external_ids()[name],
                ) && self.external_id_of(self.external_ids()[name]) == name,
            self.fields().no_duplicates(),
            self.fields().len() <= crate::fields::MAX_FIELDS,
    {
        self.fields_ids_map.lemma_wf();
        assert(self.documents().dom() =~= self.live());
        assert forall|database: Database| (#[trigger] self.postings(database)).wf() by {
            assert(self.databases@[database_position(database)].wf());
        }
        assert forall|database: PrefixDatabase| (#[trigger] self.prefix_postings(database)).wf() by {
            assert(self.prefix_databases@[prefix_database_position(database)].wf());
        }
    }

    /// An index without documents.
    pub fn new(settings: Settings) -> (index: Self)
        ensures
            index.wf(),
            index.settings() == settings,
            index.primary_key().is_none(),
            index.fields() == Seq::<Seq<u8>>::empty(),
            index.live() == Set::<DocumentId>::empty(),
            index.soft_deleted() == Set::<DocumentId>::empty(),
            index.documents() == Map::<DocumentId, Map<FieldId, Seq<u8>>>::empty(),
            index.external_ids() == Map::<Seq<u8>, DocumentId>::empty(),
            index.prefixes() == Set::<Seq<u8>>::empty(),
            index.facet_values() == Map::<Seq<u8>, Seq<u8>>::empty(),
            forall|database: Database, key: Seq<u8>| #[trigger]
                index.postings(database).docids(key) == Set::<DocumentId>::empty(),
            forall|database: PrefixDatabase, key: Seq<u8>| #[trigger]
                index.prefix_postings(database).docids(key) == Set::<DocumentId>::empty(),
    {
        let mut databases: Vec<Postings> = Vec::new();
        while databases.len() < POSTING_DATABASE_COUNT
            invariant
                databases@.len() <= POSTING_DATABASE_COUNT,
                forall|i: int| 0 <= i < databases@.len() ==> (#[trigger] databases@[i]).wf(),
                forall|i: int, key: Seq<u8>|
                    0 <= i < databases@.len() ==> #[trigger] databases@[i].docids(key)
                        == Set::<DocumentId>::empty(),
            decreases POSTING_DATABASE_COUNT - databases@.len(),
        {
            databases.push(Postings::new());
        }
        let mut prefix_databases: Vec<Postings> = Vec::new();
        while prefix_databases.len() < PREFIX_DATABASE_COUNT
            invariant
                prefix_databases@.len() <= PREFIX_DATABASE_COUNT,
                forall|i: int|
                    0 <= i < prefix_databases@.len() ==> (#[trigger] prefix_databases@[i]).wf(),
                forall|i: int, key: Seq<u8>|
                    0 <= i < prefix_databases@.len() ==> #[trigger] prefix_databases@[i].docids(key)
                        == Set::<DocumentId>::empty(),
            decreases PREFIX_DATABASE_COUNT - prefix_databases@.len(),
        {
            prefix_databases.push(Postings::new());
        }
        let index = Index {
            settings,
            primary_key: None,
            fields_ids_map: FieldsIdsMap::new(),
            documents: HashMap::new(),
            documents_ids: bitmap_new(),
            soft_deleted_documents_ids: bitmap_new(),
            external_documents_ids: ByteMap::new(),
            databases,
            words_prefixes: ByteMap::new(),
            prefix_databases,
            facet_values: FacetValues::new(),
        };
        proof {
            assert(index.documents() =~= Map::<DocumentId, Map<FieldId, Seq<u8>>>::empty());
            assert(index.prefixes() =~= Set::<Seq<u8>>::empty());
        }
        index
    }

    /// The number of documents of the index.
    pub fn number_of_documents(&self) -> (count: u64)
        ensures
            count == self.live().len(),
    {
        bitmap_len(&self.documents_ids)
    }

    /// The ids of the documents of the index.
    pub fn documents_ids(&self) -> (ids: &RoaringBitmap)
        ensures
            bitmap_ids(*ids) == self.live(),
    {
        &self.documents_ids
    }

    /// The ids of the documents that were deleted softly.
    pub fn soft_deleted_documents_ids(&self) -> (ids: &RoaringBitmap)
        ensures
            bitmap_ids(*ids) == self.soft_deleted(),
    {
        &self.soft_deleted_documents_ids
    }

    /// The settings of the index.
    pub fn get_settings(&self) -> (settings: &Settings)
        ensures
            *settings == self.settings(),
    {
        &self.settings
    }

    /// The field catalogue.
    pub fn fields_ids_map(&self) -> (map: &FieldsIdsMap)
        requires
            self.wf(),
        ensures
            map.wf(),
            map@ == self.fields(),
    {
        &self.fields_ids_map
    }

    /// The name of the primary key, once it is known.
    pub fn get_primary_key(&self) -> (name: Option<&Vec<u8>>)
        ensures
            match name {
                Some(found) => self.primary_key() == Some(found@),
                None => self.primary_key().is_none(),
            },
    {
        match &self.primary_key {
            Some(name) => Some(name),
            None => None,
        }
    }

    /// The document with internal id `id`, if the index has it.
    pub fn document(&self, id: DocumentId) -> (document: Option<&Document>)
        requires
            self.wf(),
        ensures
            match document {
                Some(found) => self.live().contains(id) && found.wf() && found@
                    == self.documents()[id],
                None => !self.live().contains(id),
            },
    {
        match self.documents.get(&id) {
            Some(stored) => Some(&stored.document),
            None => None,
        }
    }

    /// The identifier that the sender of document `id` gave it.
    pub fn external_id(&self, id: DocumentId) -> (name: Option<&Vec<u8>>)
        requires
            self.wf(),
        ensures
            match name {
                Some(found) => self.live().contains(id) && found@ == self.external_id_of(id),
                None => !self.live().contains(id),
            },
    {
        match self.documents.get(&id) {
            Some(stored) => Some(&stored.external_id),
            None => None,
        }
    }

    /// The internal id of the document that its sender named `name`.
    pub fn internal_id(&self, name: &[u8]) -> (id: Option<DocumentId>)
        requires
            self.wf(),
        ensures
            match id {
                Some(found) => self.external_ids().contains_key(name@) && self.external_ids()[name@]
                    == found,
                None => !self.external_ids().contains_key(name@),
            },
    {
        match self.external_documents_ids.get(name) {
            Some(found) => Some(*found),
            None => None,
        }
    }

    /// One of the databases that are filled from the documents.
    pub fn database(&self, database: Database) -> (postings: &Postings)
        requires
            self.wf(),
        ensures
            *postings == self.postings(database),
            postings.wf(),
    {
        &self.databases[position_of(database)]
    }

    /// One of the prefix databases.
    pub fn prefix_database(&self, database: PrefixDatabase) -> (postings: &Postings)
        requires
            self.wf(),
        ensures
            *postings == self.prefix_postings(database),
            postings.wf(),
    {
        &self.prefix_databases[prefix_position_of(database)]
    }

    /// The two indexes have the same settings, catalogue and primary key.
    pub open spec fn same_catalogue(&self, other: &Index) -> bool {
        &&& self.settings() == other.settings()
        &&& self.primary_key() == other.primary_key()
        &&& self.fields() == other.fields()
    }

    /// The two indexes hold the same documents under the same identifiers.
    pub open spec fn same_documents(&self, other: &Index) -> bool {
        &&& self.live() == other.live()
        &&& self.soft_deleted() == other.soft_deleted()
        &&& self.documents() == other.documents()
        &&& self.external_ids() == other.external_ids()
        &&& forall|id: DocumentId| #[trigger] self.external_id_of(id) == other.external_id_of(id)
    }

    /// The two indexes have the same databases filled from the documents.
    pub open spec fn same_postings(&self, other: &Index) -> bool {
        forall|database: Database| #[trigger] self.postings(database) == other.postings(database)
    }

    /// The two indexes have the same prefixes and prefix databases.
    pub open spec fn same_prefixes(&self, other: &Index) -> bool {
        &&& self.prefixes() == other.prefixes()
        &&& forall|database: PrefixDatabase| #[trigger]
            self.prefix_postings(database) == other.prefix_postings(database)
    }

    /// `self` is `before` after the hard deletion of `ids`: the documents
    /// of these ids have left, and no posting database lists one of them.
    pub open spec fn is_hard_deletion_of(&self, before: &Index, ids: Set<DocumentId>) -> bool {
        &&& self.wf()
        &&& self.live() == before.live().difference(ids)
        &&& self.documents() == before.documents().remove_keys(ids)
        &&& self.soft_deleted() == before.soft_deleted().difference(ids)
        &&& self.prefixes() == before.prefixes()
        &&& self.same_catalogue(before)
        &&& forall|database: Database, key: Seq<u8>| #[trigger]
            self.postings(database).docids(key) == before.postings(database).docids(
                key,
            ).difference(ids)
        &&& forall|database: PrefixDatabase, key: Seq<u8>| #[trigger]
            self.prefix_postings(database).docids(key) == before.prefix_postings(database).docids(
                key,
            ).difference(ids)
    }

    /// Stores a new field catalogue.
    pub fn put_fields_ids_map(&mut self, map: FieldsIdsMap)
        requires
            old(self).wf(),
            map.wf(),
        ensures
            final(self).facet_values() == old(self).facet_values(),
            final(self).wf(),
            final(self).fields() == map@,
            final(self).settings() == old(self).settings(),
            final(self).primary_key() == old(self).primary_key(),
            final(self).same_documents(old(self)),
            final(self).same_postings(old(self)),
            final(self).same_prefixes(old(self)),
    {
        self.fields_ids_map = map;
    }

    /// Stores the name of the primary key.
    pub fn put_primary_key(&mut self, name: Vec<u8>)
        requires
            old(self).wf(),
        ensures
            final(self).facet_values() == old(self).facet_values(),
            final(self).wf(),
            final(self).primary_key() == Some(name@),
            final(self).settings() == old(self).settings(),
            final(self).fields() == old(self).fields(),
            final(self).same_documents(old(self)),
            final(self).same_postings(old(self)),
            final(self).same_prefixes(old(self)),
    {
        self.primary_key = Some(name);
    }

    /// Stores a document under an internal id that is free and an external
    /// identifier that no document of the index has.
    pub fn put_document(&mut self, id: DocumentId, external_id: Vec<u8>, document: Document)
        requires
            old(self).wf(),
            document.wf(),
            !old(self).live().contains(id),
            !old(self).soft_deleted().contains(id),
            !old(self).external_ids().contains_key(external_id@),
        ensures
            final(self).facet_values() == old(self).facet_values(),
            final(self).wf(),
            final(self).live() == old(self).live().insert(id),
            final(self).soft_deleted() == old(self).soft_deleted(),
            final(self).documents() == old(self).documents().insert(id, document@),
            final(self).external_ids() == old(self).external_ids().insert(external_id@, id),
            final(self).external_id_of(id) == external_id@,
            forall|other: DocumentId|
                other != id
                    ==> #[trigger] final(self).external_id_of(other) == old(self).external_id_of(other),
            final(self).same_catalogue(old(self)),
            final(self).same_postings(old(self)),
            final(self).same_prefixes(old(self)),
    {
        let name = copy_bytes(external_id.as_slice());
        let _ = self.documents.insert(id, Stored { external_id, document });
        let _ = self.external_documents_ids.insert(name, id);
        let _ = bitmap_insert(&mut self.documents_ids, id);
        proof {
            assert(self.documents() =~= old(self).documents().insert(id, document@));
            assert forall|other: Seq<u8>| #[trigger]
                self.external_documents_ids@.contains_key(other) implies self.documents@.contains_key(
                self.external_documents_ids@[other],
            ) && self.documents@[self.external_documents_ids@[other]].external_id@ == other by {
                if other != external_id@ {
                    assert(old(self).external_documents_ids@.contains_key(other));
                }
            }
        }
    }

    /// Adds a chunk of extracted data to one of the databases: a key that
    /// the database has gains the documents of the chunk, any other key of
    /// the chunk is inserted.
    pub fn merge_into_database(&mut self, database: Database, chunk: &Postings)
        requires
            old(self).wf(),
            chunk.wf(),
        ensures
            final(self).facet_values() == old(self).facet_values(),
            final(self).wf(),
            forall|key: Seq<u8>| #[trigger]
                final(self).postings(database).docids(key) == old(self).postings(database).docids(
                    key,
                ).union(chunk.docids(key)),
            forall|other: Database|
                other != database ==> #[trigger] final(self).postings(other) == old(self).postings(
                    other,
                ),
            final(self).same_catalogue(old(self)),
            final(self).same_documents(old(self)),
            final(self).same_prefixes(old(self)),
    {
        let position = position_of(database);
        self.databases[position].merge(chunk);
        proof {
            assert forall|i: int| 0 <= i < self.databases@.len() implies (
            #[trigger] self.databases@[i]).wf() by {
                if i != position {
                    assert(self.databases@[i] == old(self).databases@[i]);
                }
            }
            assert forall|other: Database| other != database implies #[trigger] self.postings(other)
                == old(self).postings(other) by {
                assert(database_position(other) != position);
            }
        }
    }

    /// Takes the documents whose ids are in `ids` out of the index and
    /// tells how many of them the index had.
    ///
    /// The documents and their external identifiers leave in either case.
    /// Under `AlwaysSoft` their ids are marked as deleted and stay in the
    /// posting databases. Under `AlwaysHard` the ids of `ids` leave every
    /// posting database, together with the keys that no document holds any
    /// more, and none of them stays marked as deleted.
    pub fn delete_documents(&mut self, ids: &RoaringBitmap, strategy: DeletionStrategy) -> (deleted:
        u64)
        requires
            old(self).wf(),
        ensures
            final(self).wf(),
            deleted == old(self).live().intersect(bitmap_ids(*ids)).len(),
            final(self).live() == old(self).live().difference(bitmap_ids(*ids)),
            final(self).documents() == old(self).documents().remove_keys(bitmap_ids(*ids)),
            final(self).same_catalogue(old(self)),
            forall|name: Seq<u8>| #[trigger]
                final(self).external_ids().contains_key(name) <==> {
                    &&& old(self).external_ids().contains_key(name)
                    &&& !bitmap_ids(*ids).contains(old(self).external_ids()[name])
                },
            forall|name: Seq<u8>|
                final(self).external_ids().contains_key(name) ==> {
                    #[trigger] final(self).external_ids()[name] == old(self).external_ids()[name]
                },
            forall|id: DocumentId|
                final(self).live().contains(id) ==> {
                    #[trigger] final(self).external_id_of(id) == old(self).external_id_of(id)
                },
            strategy == DeletionStrategy::AlwaysSoft ==> {
                &&& final(self).soft_deleted() == old(self).soft_deleted().union(
                    old(self).live().intersect(bitmap_ids(*ids)),
                )
                &&& final(self).same_postings(old(self))
                &&& final(self).same_prefixes(old(self))
                &&& final(self).facet_values() == old(self).facet_values()
            },
            strategy == DeletionStrategy::AlwaysHard ==> {
                &&& final(self).facet_values() == without_documents(
                    old(self).facet_values(),
                    bitmap_ids(*ids),
                )
                &&& final(self).soft_deleted() == old(self).soft_deleted().difference(
                    bitmap_ids(*ids),
                )
                &&& final(self).prefixes() == old(self).prefixes()
                &&& forall|database: Database, key: Seq<u8>| #[trigger]
                    final(self).postings(database).docids(key) == old(self).postings(
                        database,
                    ).docids(key).difference(bitmap_ids(*ids))
                &&& forall|database: PrefixDatabase, key: Seq<u8>| #[trigger]
                    final(self).prefix_postings(database).docids(key)
                        == old(self).prefix_postings(database).docids(key).difference(bitmap_ids(*ids))
                &&& final(self).is_hard_deletion_of(old(self), bitmap_ids(*ids))
            },
    {
        let targets = bitmap_to_vec(ids);
        let soft = matches!(strategy, DeletionStrategy::AlwaysSoft);
        let mut deleted: u64 = 0;
        let mut n: usize = 0;
        proof {
            lemma_ids_finite(old(self).live().intersect(first_ids(targets@, 0)));
            assert(old(self).live().intersect(first_ids(targets@, 0)) =~= Set::<DocumentId>::empty());
            assert(bitmap_ids(self.documents_ids) =~= old(self).live().difference(first_ids(targets@, 0)));
            assert(self.documents@ =~= old(self).documents@.remove_keys(first_ids(targets@, 0)));
            assert(bitmap_ids(self.soft_deleted_documents_ids) =~= old(self).soft_deleted().union(
                old(self).live().intersect(first_ids(targets@, 0)),
            ));
        }
        while n < targets.len()
            invariant
                n <= targets@.len(),
                soft == (strategy == DeletionStrategy::AlwaysSoft),
                forall|i: int, j: int| 0 <= i < j < targets@.len() ==> targets@[i] < targets@[j],
                old(self).wf(),
                self.fields_ids_map == old(self).fields_ids_map,
                self.settings == old(self).settings,
                self.primary_key == old(self).primary_key,
                self.words_prefixes == old(self).words_prefixes,
                self.facet_values == old(self).facet_values,
                self.databases == old(self).databases,
                self.prefix_databases == old(self).prefix_databases,
                self.external_documents_ids.wf(),
                deleted <= n,
                deleted == old(self).live().intersect(first_ids(targets@, n as int)).len(),
                bitmap_ids(self.documents_ids)
                    == old(self).live().difference(first_ids(targets@, n as int)),
                self.documents@ == old(self).documents@.remove_keys(first_ids(targets@, n as int)),
                soft ==> bitmap_ids(self.soft_deleted_documents_ids) == old(self).soft_deleted().union(
                    old(self).live().intersect(first_ids(targets@, n as int)),
                ),
                !soft ==> self.soft_deleted_documents_ids == old(self).soft_deleted_documents_ids,
                forall|name: Seq<u8>| #[trigger]
                    self.external_documents_ids@.contains_key(name)
                        <==> old(self).external_documents_ids@.contains_key(name)
                            && !first_ids(targets@, n as int).contains(
                        old(self).external_documents_ids@[name],
                    ),
                forall|name: Seq<u8>|
                    self.external_documents_ids@.contains_key(name)
                        ==> #[trigger] self.external_documents_ids@[name]
                            == old(self).external_documents_ids@[name],
            decreases targets@.len() - n,
        {
            let id = targets[n];
            let ghost before = *self;
            proof {
                assert(first_ids(targets@, n + 1) =~= first_ids(targets@, n as int).insert(id)) by {
                    assert forall|x: DocumentId| #[trigger]
                        first_ids(targets@, n + 1).contains(x) <==> first_ids(
                            targets@,
                            n as int,
                        ).insert(id).contains(x) by {
                        if first_ids(targets@, n as int).contains(x) {
                            let j = choose|j: int| 0 <= j < n && j < targets@.len()
                                && #[trigger] targets@[j] == x;
                            assert(0 <= j < n + 1 && targets@[j] == x);
                        }
                        if x == id {
                            assert(0 <= n < n + 1 && targets@[n as int] == x);
                        }
                    }
                }
                assert(!first_ids(targets@, n as int).contains(id)) by {
                    if first_ids(targets@, n as int).contains(id) {
                        let j = choose|j: int| 0 <= j < n && j < targets@.len()
                            && #[trigger] targets@[j] == id;
                        assert(targets@[j] < targets@[n as int]);
                    }
                }
                lemma_ids_finite(old(self).live().intersect(first_ids(targets@, n as int)));
            }
            match self.documents.remove(&id) {
                Some(stored) => {
                    let _ = self.external_documents_ids.remove(stored.external_id.as_slice());
                    let _ = bitmap_remove(&mut self.documents_ids, id);
                    if soft {
                        let _ = bitmap_insert(&mut self.soft_deleted_documents_ids, id);
                    }
                    deleted = deleted + 1;
                    proof {
                        assert(old(self).documents@.contains_key(id));
                        assert(old(self).live().contains(id));
                        assert(old(self).live().intersect(first_ids(targets@, n
                            + 1)) =~= old(self).live().intersect(
                            first_ids(targets@, n as int),
                        ).insert(id));
                        assert(bitmap_ids(self.documents_ids) =~= old(self).live().difference(
                            first_ids(targets@, n + 1),
                        ));
                        assert(self.documents@ =~= old(self).documents@.remove_keys(first_ids(targets@, n + 1)));
                        if soft {
                            assert(bitmap_ids(self.soft_deleted_documents_ids) =~= old(self).soft_deleted().union(old(self).live().intersect(first_ids(targets@, n + 1))));
                        }
                        assert(stored.external_id@ == old(self).documents@[id].external_id@);
                        assert forall|name: Seq<u8>| #[trigger]
                            self.external_documents_ids@.contains_key(name)
                                <==> old(self).external_documents_ids@.contains_key(name)
                                    && !first_ids(targets@, n + 1).contains(
                                old(self).external_documents_ids@[name],
                            ) by {
                            if old(self).external_documents_ids@.contains_key(name)
                                && old(self).external_documents_ids@[name] == id {
                                assert(old(self).documents@[id].external_id@ == name);
                            }
                        }
                    }
                },
                None => {
                    proof {
                        assert(!before.documents@.contains_key(id));
                        assert(!old(self).live().contains(id));
                        assert(old(self).live().intersect(first_ids(targets@, n
                            + 1)) =~= old(self).live().intersect(
                            first_ids(targets@, n as int),
                        ));
                        assert(bitmap_ids(self.documents_ids) =~= old(self).live().difference(
                            first_ids(targets@, n + 1),
                        ));
                        assert(self.documents@ =~= old(self).documents@.remove_keys(first_ids(targets@, n + 1)));
                        assert forall|name: Seq<u8>| #[trigger]
                            self.external_documents_ids@.contains_key(name)
                                <==> old(self).external_documents_ids@.contains_key(name)
                                    && !first_ids(targets@, n + 1).contains(
                                old(self).external_documents_ids@[name],
                            ) by {
                            if old(self).external_documents_ids@.contains_key(name)
                                && old(self).external_documents_ids@[name] == id {
                                assert(old(self).documents@.contains_key(id));
                            }
                        }
                    }
                },
            }
            n += 1;
        }
        proof {
            assert(first_ids(targets@, n as int) =~= bitmap_ids(*ids)) by {
                assert forall|x: DocumentId| #[trigger]
                    first_ids(targets@, n as int).contains(x) <==> bitmap_ids(*ids).contains(x) by {
                    if first_ids(targets@, n as int).contains(x) {
                        let j = choose|j: int| 0 <= j < n && j < targets@.len()
                            && #[trigger] targets@[j] == x;
                        assert(targets@.contains(x));
                    }
                    if targets@.contains(x) {
                        let j = targets@.index_of(x);
                        assert(0 <= j < n && targets@[j] == x);
                    }
                }
            }
            assert(self.documents() =~= old(self).documents().remove_keys(bitmap_ids(*ids)));
        }
        if !soft {
            bitmap_difference_with(&mut self.soft_deleted_documents_ids, ids);
            let ghost purged = *self;
            let mut i: usize = 0;
            while i < self.databases.len()
                invariant
                    old(self).wf(),
                    self.same_but_databases(&purged),
                    self.prefix_databases == old(self).prefix_databases,
                    i <= self.databases@.len(),
                    self.databases@.len() == old(self).databases@.len(),
                    forall|j: int| 0 <= j < self.databases@.len()
                        ==> (#[trigger] self.databases@[j]).wf(),
                    forall|j: int, key: Seq<u8>|
                        0 <= j < i
                            ==> #[trigger] self.databases@[j].docids(key)
                                == old(self).databases@[j].docids(key).difference(bitmap_ids(*ids)),
                    forall|j: int| i <= j < self.databases@.len()
                        ==> #[trigger] self.databases@[j] == old(self).databases@[j],
                decreases self.databases@.len() - i,
            {
                self.databases[i].remove_documents(ids);
                i += 1;
            }
            let ghost merged = self.databases;
            let mut i: usize = 0;
            while i < self.prefix_databases.len()
                invariant
                    old(self).wf(),
                    self.same_but_databases(&purged),
                    self.databases == merged,
                    i <= self.prefix_databases@.len(),
                    self.prefix_databases@.len() == old(self).prefix_databases@.len(),
                    forall|j: int|
                        0 <= j < self.prefix_databases@.len() ==> (
                        #[trigger] self.prefix_databases@[j]).wf(),
                    forall|j: int, key: Seq<u8>|
                        0 <= j < i
                            ==> #[trigger] self.prefix_databases@[j].docids(key)
                                == old(self).prefix_databases@[j].docids(key).difference(bitmap_ids(*ids)),
                    forall|j: int|
                        i <= j < self.prefix_databases@.len() ==> #[trigger] self.prefix_databases@[j]
                            == old(self).prefix_databases@[j],
                decreases self.prefix_databases@.len() - i,
            {
                self.prefix_databases[i].remove_documents(ids);
                i += 1;
            }
            self.facet_values.remove_documents(ids);
        }
        proof {
            assert forall|id: DocumentId| #[trigger]
                self.documents@.contains_key(id) implies self.external_documents_ids@.contains_key(
                self.documents@[id].external_id@,
            ) && self.external_documents_ids@[self.documents@[id].external_id@] == id by {
                assert(old(self).documents@.contains_key(id));
            }
            assert forall|name: Seq<u8>| #[trigger]
                self.external_documents_ids@.contains_key(name) implies self.documents@.contains_key(
                self.external_documents_ids@[name],
            ) && self.documents@[self.external_documents_ids@[name]].external_id@ == name by {
                assert(old(self).external_documents_ids@.contains_key(name));
            }
        }
        deleted
    }

    /// The database of the strings of the filterable fields.
    pub fn facet_values_database(&self) -> (values: &FacetValues)
        requires
            self.wf(),
        ensures
            values.wf(),
            values@ == self.facet_values(),
    {
        &self.facet_values
    }

    /// Writes a chunk of strings of filterable fields: what the chunk has
    /// under a key takes the place of what the index had there.
    pub fn write_facet_values(&mut self, chunk: FacetValues)
        requires
            old(self).wf(),
            chunk.wf(),
        ensures
            final(self).wf(),
            final(self).facet_values() == old(self).facet_values().union_prefer_right(chunk@),
            final(self).same_catalogue(old(self)),
            final(self).same_documents(old(self)),
            final(self).same_postings(old(self)),
            final(self).same_prefixes(old(self)),
    {
        self.facet_values.write(chunk);
    }

    /// The frequent prefixes that the prefix databases are built on.
    pub fn words_prefixes(&self) -> (prefixes: &ByteMap<()>)
        requires
            self.wf(),
        ensures
            prefixes.wf(),
            prefixes@.dom() == self.prefixes(),
    {
        &self.words_prefixes
    }

    /// Stores the set of frequent prefixes.
    pub fn put_words_prefixes(&mut self, prefixes: ByteMap<()>)
        requires
            old(self).wf(),
            prefixes.wf(),
        ensures
            final(self).facet_values() == old(self).facet_values(),
            final(self).wf(),
            final(self).prefixes() == prefixes@.dom(),
            forall|database: PrefixDatabase| #[trigger]
                final(self).prefix_postings(database) == old(self).prefix_postings(database),
            final(self).same_catalogue(old(self)),
            final(self).same_documents(old(self)),
            final(self).same_postings(old(self)),
    {
        self.words_prefixes = prefixes;
    }

    /// Brings one of the prefix databases up to date with the words of its
    /// source database: see `update_prefix_database`.
    pub fn update_prefix_database(
        &mut self,
        database: PrefixDatabase,
        chunk: &Postings,
        new_prefixes: &Vec<&[Vec<u8>]>,
        common_prefixes: &Vec<&[Vec<u8>]>,
        deleted_prefixes: &Vec<Vec<u8>>,
    )
        requires
            old(self).wf(),
            chunk.wf(),
            grouped_by_first_byte(new_prefixes@),
            grouped_by_first_byte(common_prefixes@),
        ensures
            final(self).facet_values() == old(self).facet_values(),
            final(self).wf(),
            forall|key: Seq<u8>| #[trigger]
                final(self).prefix_postings(database).docids(key) == updated_docids(
                    shape_of(database),
                    old(self).prefix_postings(database).docids(key),
                    &old(self).postings(source_of(database)),
                    chunk,
                    new_prefixes@,
                    common_prefixes@,
                    deleted_prefixes@,
                    key,
                ),
            forall|other: PrefixDatabase|
                other != database ==> #[trigger] final(self).prefix_postings(other) == old(
                    self,
                ).prefix_postings(other),
            final(self).prefixes() == old(self).prefixes(),
            final(self).same_catalogue(old(self)),
            final(self).same_documents(old(self)),
            final(self).same_postings(old(self)),
    {
        let position = prefix_position_of(database);
        let source = position_of(source_database(database));
        update_prefix_database(
            &mut self.prefix_databases[position],
            key_shape(database),
            &self.databases[source],
            chunk,
            new_prefixes,
            common_prefixes,
            deleted_prefixes,
        );
        proof {
            assert forall|i: int| 0 <= i < self.prefix_databases@.len() implies (
            #[trigger] self.prefix_databases@[i]).wf() by {
                if i != position {
                    assert(self.prefix_databases@[i] == old(self).prefix_databases@[i]);
                }
            }
            assert forall|other: PrefixDatabase| other != database implies #[trigger]
                self.prefix_postings(other) == old(self).prefix_postings(other) by {
                assert(prefix_database_position(other) != position);
            }
        }
    }
}

} // verus!
