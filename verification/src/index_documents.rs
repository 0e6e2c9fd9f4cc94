//! The indexing pipeline: documents are sent to it batch by batch, and
//! `execute` brings the index up to date with them.

use crate::enrich::{
    enrich_documents_batch, enriched, is_batch_candidate, is_first_fault, reports,
    resolve_primary_key, resolved_key, shortlex_sorted, Enriched, RawDocument,
};
use crate::settings::names_contain;
use crate::error::{Error, InternalError, UserError};
use crate::bitmap::{bitmap_ids, bitmap_is_empty, bitmap_len};
use crate::documents::DocumentId;
use crate::extract::{chunk_docids, extract_chunk, Database, StoredDocument};
use crate::facet_values::{extract_facet_values, is_values_of, without_documents};
use crate::fields::FieldsIdsMap;
use crate::settings::Settings;
use crate::typed_chunk::{can_store, ids_from, stored, write_typed_chunk_into_index, TypedChunk};
use crate::index::{
    database_at, database_position, prefix_database_at, prefix_database_position, shape_of,
    source_of, DeletionStrategy, Index, PrefixDatabase, MERGED_DATABASE_COUNT,
    POSTING_DATABASE_COUNT, PREFIX_DATABASE_COUNT, TOTAL_POSTING_DATABASE_COUNT,
};
use crate::prefix_databases::{key_word, lists_under, prefix_docids_of, updated_docids};
use crate::postings::Postings;
use crate::prefix::{
    compute_prefixes, group_prefixes, is_frequent_prefix, select_prefixes,
    DEFAULT_MAX_PREFIX_LENGTH, DEFAULT_WORDS_PREFIX_THRESHOLD,
};
use crate::transform::{
    document_views, may_abort, may_continue, removals_counted, state_after_batch,
    state_after_removals, Transform, TransformOutput, TransformState,
};
use vstd::prelude::*;

verus! {

/// What the index holds after a batch was indexed.
#[derive(Debug, Clone, PartialEq, Eq)]
pub struct DocumentAdditionResult {
    /// The number of documents that were indexed during the update
    pub indexed_documents: u64,
    /// The total number of documents in the index after the update
    pub number_of_documents: u64,
}

/// What becomes of a document whose identifier the index already has.
#[derive(Debug, Clone, Copy, PartialEq, Eq, Hash, Structural)]
#[non_exhaustive]
pub enum IndexDocumentsMethod {
    /// Replace the previous document with the new one,
    /// removing all the already known attributes.
    ReplaceDocuments,
    /// Merge the previous version of the document with the new version,
    /// replacing old attributes values with the new ones and add the new attributes.
    UpdateDocuments,
}

impl Default for IndexDocumentsMethod {
    fn default() -> (method: Self)
        ensures
            method == IndexDocumentsMethod::ReplaceDocuments,
    {
        Self::ReplaceDocuments
    }
}

/// One step of the indexing, as the progress callback is told of it.
#[derive(Debug, Clone, Copy, PartialEq, Eq, Structural)]
pub enum UpdateIndexingStep {
    /// So many of the documents of the run have been written.
    IndexDocuments { documents_seen: usize, total_documents: usize },
    /// So many of the posting databases have been brought up to date.
    MergeDataIntoFinalDatabase { databases_seen: usize, total_databases: usize },
}

/// How a run treats the documents that it is sent.
#[derive(Debug, Clone)]
pub struct IndexDocumentsConfig {
    /// The number of documents that make a prefix frequent.
    pub words_prefix_threshold: Option<u32>,
    /// The length up to which prefixes are indexed.
    pub max_prefix_length: Option<usize>,
    /// The size of a group of positions; not zero where it is set.
    pub words_positions_level_group_size: Option<u32>,
    /// The least size of a level of positions; not zero where it is set.
    pub words_positions_min_level_size: Option<u32>,
    pub update_method: IndexDocumentsMethod,
    pub deletion_strategy: DeletionStrategy,
    pub autogenerate_docids: bool,
}

impl Default for IndexDocumentsConfig {
    fn default() -> (config: Self)
        ensures
            config.words_prefix_threshold.is_none(),
            config.max_prefix_length.is_none(),
            config.words_positions_level_group_size.is_none(),
            config.words_positions_min_level_size.is_none(),
            config.update_method == IndexDocumentsMethod::ReplaceDocuments,
            config.deletion_strategy == DeletionStrategy::AlwaysSoft,
            !config.autogenerate_docids,
    {
        IndexDocumentsConfig {
            words_prefix_threshold: None,
            max_prefix_length: None,
            words_positions_level_group_size: None,
            words_positions_min_level_size: None,
            update_method: IndexDocumentsMethod::ReplaceDocuments,
            deletion_strategy: DeletionStrategy::AlwaysSoft,
            autogenerate_docids: false,
        }
    }
}

/// How the data of a chunk is packed where it is written to disk.
#[derive(Debug, Clone, Copy, PartialEq, Eq, Structural)]
pub enum CompressionType {
    Uncompressed,
    Snappy,
    Zlib,
    Lz4,
    Zstd,
}

/// What the machine allows a run: the size of its chunks and the limits
/// of the buffers that spill them to disk.
#[derive(Debug, Clone)]
pub struct IndexerConfig {
    /// The number of documents of one extraction chunk.
    pub documents_chunk_size: Option<usize>,
    /// The number of chunks that a buffer may spill.
    pub max_nb_chunks: Option<usize>,
    /// The number of bytes that a buffer holds before it spills.
    pub max_memory: Option<usize>,
    pub chunk_compression_type: CompressionType,
    pub chunk_compression_level: Option<u32>,
}

impl Default for IndexerConfig {
    fn default() -> (config: Self)
        ensures
            config.documents_chunk_size.is_none(),
            config.max_nb_chunks.is_none(),
            config.max_memory.is_none(),
            config.chunk_compression_type == CompressionType::Uncompressed,
            config.chunk_compression_level.is_none(),
    {
        IndexerConfig {
            documents_chunk_size: None,
            max_nb_chunks: None,
            max_memory: None,
            chunk_compression_type: CompressionType::Uncompressed,
            chunk_compression_level: None,
        }
    }
}

/// The identifier and the fields of each document of `batch` under the
/// primary key `primary_key`.
pub open spec fn enriched_batch(batch: Seq<RawDocument>, primary_key: Seq<u8>, autogenerate: bool) -> Seq<
    (Seq<u8>, Seq<(Seq<u8>, Seq<u8>)>),
> {
    Seq::new(
        batch.len(),
        |i: int|
            match enriched(batch[i], primary_key, autogenerate) {
                Enriched::Document { id, fields } => (id, fields),
                _ => (Seq::empty(), Seq::empty()),
            },
    )
}

/// A batch can be read: it has a primary key, and under it none of its
/// documents has a fault.
pub open spec fn batch_is_readable(
    current: Option<Seq<u8>>,
    autogenerate: bool,
    batch: Seq<RawDocument>,
) -> bool {
    match resolved_key(current, autogenerate, batch) {
        Some(key) => batch_is_sound(batch, key, autogenerate),
        None => false,
    }
}

/// No document of `batch` has a fault under the primary key
/// `primary_key`.
pub open spec fn batch_is_sound(batch: Seq<RawDocument>, primary_key: Seq<u8>, autogenerate: bool) -> bool {
    forall|i: int| 0 <= i < batch.len()
        ==> enriched(#[trigger] batch[i], primary_key, autogenerate) is Document
}

/// The sum of a counter and a number of documents, as far as the counter
/// goes.
pub open spec fn counted(counter: u64, more: nat) -> u64 {
    if counter + more <= u64::MAX {
        (counter + more) as u64
    } else {
        u64::MAX
    }
}

fn count_more(counter: u64, more: usize) -> (sum: u64)
    ensures
        sum == counted(counter, more as nat),
{
    if more as u64 <= u64::MAX - counter {
        counter + more as u64
    } else {
        u64::MAX
    }
}

/// Counts the steps of a run and words the events that tell of them.
///
/// The count of the databases goes up by one with each event and never
/// beyond the number of posting databases; the count of the documents
/// never goes down.
pub struct ProgressTracker {
    databases_seen: usize,
    documents_seen: usize,
    total_documents: usize,
}

impl ProgressTracker {
    /// The number of databases that were reported.
    pub closed spec fn databases_seen(&self) -> nat {
        self.databases_seen as nat
    }

    /// The number of documents that were reported.
    pub closed spec fn documents_seen(&self) -> nat {
        self.documents_seen as nat
    }

    /// The number of documents of the run.
    pub closed spec fn total_documents(&self) -> nat {
        self.total_documents as nat
    }

    /// A tracker for a run of `total_documents` documents in which
    /// `databases_seen` databases are up to date already.
    pub fn new(databases_seen: usize, total_documents: usize) -> (tracker: Self)
        ensures
            tracker.databases_seen() == databases_seen,
            tracker.documents_seen() == 0,
            tracker.total_documents() == total_documents,
    {
        ProgressTracker { databases_seen, documents_seen: 0, total_documents }
    }

    /// The event that tells how many databases are up to date.
    pub fn databases(&self) -> (step: UpdateIndexingStep)
        ensures
            step == (UpdateIndexingStep::MergeDataIntoFinalDatabase {
                databases_seen: self.databases_seen() as usize,
                total_databases: TOTAL_POSTING_DATABASE_COUNT,
            }),
    {
        UpdateIndexingStep::MergeDataIntoFinalDatabase {
            databases_seen: self.databases_seen,
            total_databases: TOTAL_POSTING_DATABASE_COUNT,
        }
    }

    /// Counts one more database and words the event that tells of it.
    pub fn database_merged(&mut self) -> (step: UpdateIndexingStep)
        requires
            old(self).databases_seen() < TOTAL_POSTING_DATABASE_COUNT,
        ensures
            final(self).databases_seen() == old(self).databases_seen() + 1,
            final(self).documents_seen() == old(self).documents_seen(),
            final(self).total_documents() == old(self).total_documents(),
            step == (UpdateIndexingStep::MergeDataIntoFinalDatabase {
                databases_seen: final(self).databases_seen() as usize,
                total_databases: TOTAL_POSTING_DATABASE_COUNT,
            }),
    {
        self.databases_seen = self.databases_seen + 1;
        self.databases()
    }

    /// Counts `count` more documents, as far as a number goes, and words
    /// the event that tells of them.
    pub fn documents_indexed(&mut self, count: u64) -> (step: UpdateIndexingStep)
        ensures
            final(self).documents_seen() >= old(self).documents_seen(),
            final(self).documents_seen() == if old(self).documents_seen() + count <= usize::MAX {
                old(self).documents_seen() + count
            } else {
                usize::MAX as int
            },
            final(self).databases_seen() == old(self).databases_seen(),
            final(self).total_documents() == old(self).total_documents(),
            step == (UpdateIndexingStep::IndexDocuments {
                documents_seen: final(self).documents_seen() as usize,
                total_documents: final(self).total_documents() as usize,
            }),
    {
        if count <= (usize::MAX - self.documents_seen) as u64 {
            self.documents_seen = self.documents_seen + count as usize;
        } else {
            self.documents_seen = usize::MAX;
        }
        UpdateIndexingStep::IndexDocuments {
            documents_seen: self.documents_seen,
            total_documents: self.total_documents,
        }
    }
}

/// The number of documents that make a prefix frequent in a run.
pub open spec fn threshold_of(config: IndexDocumentsConfig) -> nat {
    match config.words_prefix_threshold {
        Some(threshold) => threshold as nat,
        None => DEFAULT_WORDS_PREFIX_THRESHOLD as nat,
    }
}

/// The length up to which a run indexes prefixes.
pub open spec fn max_prefix_length_of(config: IndexDocumentsConfig) -> nat {
    match config.max_prefix_length {
        Some(length) => length as nat,
        None => DEFAULT_MAX_PREFIX_LENGTH as nat,
    }
}

/// What a prefix database lists under a key whose word is `prefix`, once
/// it is up to date.
///
/// `earlier` and `current` are the sets of frequent prefixes before and
/// after the run, `listed` is what the database listed under the key so
/// far, `all` are the documents of all the keys that are listed under it,
/// and `gained` those that the run has added to such keys. A prefix that
/// is no longer frequent lists nothing. A prefix that has become frequent
/// lists the documents of all its words. A prefix that was and is
/// frequent gains the documents that the run has added to its words.
pub open spec fn prefix_docids_after(
    earlier: Set<Seq<u8>>,
    current: Set<Seq<u8>>,
    listed: Set<DocumentId>,
    all: Set<DocumentId>,
    gained: Set<DocumentId>,
    prefix: Seq<u8>,
) -> Set<DocumentId> {
    if earlier.contains(prefix) && !current.contains(prefix) {
        Set::empty()
    } else {
        let from_words = if current.contains(prefix) && !earlier.contains(prefix) {
            all
        } else {
            Set::empty()
        };
        let from_chunk = if current.contains(prefix) && earlier.contains(prefix) {
            gained
        } else {
            Set::empty()
        };
        listed.union(from_words.union(from_chunk))
    }
}

/// The prefix database `database` of `after` is that of `before` brought
/// up to date with `chunk`; without a chunk it is the same.
pub open spec fn prefix_database_updated(
    before: &Index,
    after: &Index,
    database: PrefixDatabase,
    chunk: Option<Postings>,
) -> bool {
    match chunk {
        Some(added) => forall|key: Seq<u8>| #[trigger]
            after.prefix_postings(database).docids(key) == match key_word(shape_of(database), key) {
                Some(prefix) => prefix_docids_after(
                    before.prefixes(),
                    after.prefixes(),
                    before.prefix_postings(database).docids(key),
                    prefix_docids_of(
                        shape_of(database),
                        &before.postings(source_of(database)),
                        key,
                    ),
                    prefix_docids_of(shape_of(database), &added, key),
                    prefix,
                ),
                None => before.prefix_postings(database).docids(key),
            },
        None => after.prefix_postings(database) == before.prefix_postings(database),
    }
}

/// The chunks that a run hands to its prefix stage: what the run has
/// added to each database that a prefix database is built on.
pub struct PrefixChunks {
    pub word_docids: Option<Postings>,
    pub exact_word_docids: Option<Postings>,
    pub word_pair_proximity_docids: Option<Postings>,
    pub word_position_docids: Option<Postings>,
    pub word_fid_docids: Option<Postings>,
}

impl PrefixChunks {
    /// The chunk for `database`, if there is one.
    pub open spec fn chunk_for(&self, database: PrefixDatabase) -> Option<Postings> {
        match database {
            PrefixDatabase::WordPrefixDocids => self.word_docids,
            PrefixDatabase::ExactWordPrefixDocids => self.exact_word_docids,
            PrefixDatabase::WordPrefixFidDocids => self.word_fid_docids,
            PrefixDatabase::WordPrefixPositionDocids => self.word_position_docids,
            PrefixDatabase::WordPrefixPairProximityDocids => self.word_pair_proximity_docids,
        }
    }

    /// Every chunk is a sound posting list.
    pub open spec fn wf(&self) -> bool {
        forall|database: PrefixDatabase|
            (#[trigger] self.chunk_for(database)).is_some() ==> self.chunk_for(
                database,
            ).unwrap().wf()
    }

    /// The chunk for `database`, if there is one.
    pub fn get(&self, database: PrefixDatabase) -> (chunk: Option<&Postings>)
        ensures
            match chunk {
                Some(held) => self.chunk_for(database) == Some(*held),
                None => self.chunk_for(database).is_none(),
            },
    {
        let held = match database {
            PrefixDatabase::WordPrefixDocids => &self.word_docids,
            PrefixDatabase::ExactWordPrefixDocids => &self.exact_word_docids,
            PrefixDatabase::WordPrefixFidDocids => &self.word_fid_docids,
            PrefixDatabase::WordPrefixPositionDocids => &self.word_position_docids,
            PrefixDatabase::WordPrefixPairProximityDocids => &self.word_pair_proximity_docids,
        };
        match held {
            Some(chunk) => Some(chunk),
            None => None,
        }
    }
}

/// `after` is `before` with its prefixes and prefix databases brought up
/// to date.
pub open spec fn prefixes_updated(
    before: &Index,
    after: &Index,
    config: IndexDocumentsConfig,
    chunks: &PrefixChunks,
) -> bool {
    &&& after.wf()
    &&& after.same_catalogue(before)
    &&& after.same_documents(before)
    &&& after.same_postings(before)
    &&& after.facet_values() == before.facet_values()
    &&& forall|prefix: Seq<u8>| #[trigger]
        after.prefixes().contains(prefix) <==> is_frequent_prefix(
            &before.postings(Database::WordDocids),
            prefix,
            threshold_of(config),
            max_prefix_length_of(config),
        )
    &&& forall|database: PrefixDatabase| #[trigger]
        prefix_database_updated(before, after, database, chunks.chunk_for(database))
}

/// The number of documents of an extraction chunk when the configuration
/// sets no other.
pub const DEFAULT_DOCUMENTS_CHUNK_SIZE: usize = 4096;

/// What is left of the documents `listed` once `replaced` are deleted:
/// under `AlwaysSoft` a posting database keeps the ids of deleted
/// documents.
pub open spec fn kept_docids(
    listed: Set<DocumentId>,
    replaced: Set<DocumentId>,
    strategy: DeletionStrategy,
) -> Set<DocumentId> {
    if strategy == DeletionStrategy::AlwaysHard {
        listed.difference(replaced)
    } else {
        listed
    }
}

/// The documents of a run that `database` lists under `key`.
pub open spec fn new_docids(
    settings: &Settings,
    fields: Seq<Seq<u8>>,
    documents: Seq<StoredDocument>,
    database: Database,
    key: Seq<u8>,
) -> Set<DocumentId> {
    chunk_docids(database, settings, fields, documents, 0, documents.len() as int, key)
}

/// The documents of a run that go under `key` in the prefix database
/// `database`: those that the run lists under a key of the source
/// database whose documents go under `key`.
pub open spec fn new_prefix_docids(
    settings: &Settings,
    fields: Seq<Seq<u8>>,
    documents: Seq<StoredDocument>,
    database: PrefixDatabase,
    key: Seq<u8>,
) -> Set<DocumentId> {
    Set::new(
        |id: DocumentId|
            exists|source_key: Seq<u8>|
                lists_under(shape_of(database), source_key, key) && #[trigger] new_docids(
                    settings,
                    fields,
                    documents,
                    source_of(database),
                    source_key,
                ).contains(id),
    )
}

/// The documents and identifiers of `after` are those of `before` without
/// the replaced documents and with the documents of `output`.
pub open spec fn documents_applied(
    before: &Index,
    after: &Index,
    output: &TransformOutput,
    strategy: DeletionStrategy,
) -> bool {
    let replaced = bitmap_ids(output.replaced_documents_ids);
    let documents = output.documents@;
    &&& after.live() == before.live().difference(replaced).union(ids_from(documents, 0))
    &&& after.soft_deleted() == if strategy == DeletionStrategy::AlwaysHard {
        before.soft_deleted().difference(replaced)
    } else {
        before.soft_deleted().union(replaced)
    }
    &&& forall|n: int|
        0 <= n < documents.len() ==> {
            &&& after.documents()[(#[trigger] documents[n]).id] == documents[n].document@
            &&& after.external_id_of(documents[n].id) == documents[n].external_id@
            &&& after.external_ids().contains_key(documents[n].external_id@)
            &&& after.external_ids()[documents[n].external_id@] == documents[n].id
        }
    &&& forall|id: DocumentId|
        before.live().contains(id) && !replaced.contains(id) ==> #[trigger] after.documents()[id]
            == before.documents()[id] && after.external_id_of(id) == before.external_id_of(id)
    &&& forall|name: Seq<u8>| #[trigger]
        after.external_ids().contains_key(name) <==> (before.external_ids().contains_key(name)
            && !replaced.contains(before.external_ids()[name])) || (exists|n: int|
            0 <= n < documents.len() && (#[trigger] documents[n]).external_id@ == name)
    &&& forall|name: Seq<u8>|
        before.external_ids().contains_key(name) && !replaced.contains(
            before.external_ids()[name],
        ) ==> #[trigger] after.external_ids()[name] == before.external_ids()[name]
}

/// Each posting database of `after` lists what that of `before` kept and
/// what the documents of `output` add.
pub open spec fn postings_applied(
    before: &Index,
    after: &Index,
    output: &TransformOutput,
    strategy: DeletionStrategy,
) -> bool {
    forall|database: Database, key: Seq<u8>| #[trigger]
        after.postings(database).docids(key) == kept_docids(
            before.postings(database).docids(key),
            bitmap_ids(output.replaced_documents_ids),
            strategy,
        ).union(
            new_docids(
                &before.settings(),
                output.fields_ids_map@,
                output.documents@,
                database,
                key,
            ),
        )
}

/// The prefixes of `after` are the frequent prefixes of its words, and
/// each prefix database is up to date with them.
pub open spec fn prefixes_applied(
    before: &Index,
    after: &Index,
    output: &TransformOutput,
    config: IndexDocumentsConfig,
) -> bool {
    &&& forall|prefix: Seq<u8>| #[trigger]
        after.prefixes().contains(prefix) <==> is_frequent_prefix(
            &after.postings(Database::WordDocids),
            prefix,
            threshold_of(config),
            max_prefix_length_of(config),
        )
    &&& forall|database: PrefixDatabase, key: Seq<u8>| #[trigger]
        after.prefix_postings(database).docids(key) == match key_word(shape_of(database), key) {
            Some(prefix) => prefix_docids_after(
                before.prefixes(),
                after.prefixes(),
                kept_docids(
                    before.prefix_postings(database).docids(key),
                    bitmap_ids(output.replaced_documents_ids),
                    config.deletion_strategy,
                ),
                prefix_docids_of(shape_of(database), &after.postings(source_of(database)), key),
                new_prefix_docids(
                    &before.settings(),
                    output.fields_ids_map@,
                    output.documents@,
                    database,
                    key,
                ),
                prefix,
            ),
            None => kept_docids(
                before.prefix_postings(database).docids(key),
                bitmap_ids(output.replaced_documents_ids),
                config.deletion_strategy,
            ),
        }
}

/// `after` is what a run makes of `before` with the output of its
/// transform: the replaced documents are deleted, the new documents are
/// stored and listed in every posting database, and the prefixes are up
/// to date.
pub open spec fn output_applied(
    before: &Index,
    after: &Index,
    output: &TransformOutput,
    config: IndexDocumentsConfig,
) -> bool {
    &&& after.wf()
    &&& after.settings() == before.settings()
    &&& after.fields() == output.fields_ids_map@
    &&& after.primary_key() == match output.primary_key {
        Some(name) => Some(name@),
        None => before.primary_key(),
    }
    &&& documents_applied(before, after, output, config.deletion_strategy)
    &&& postings_applied(before, after, output, config.deletion_strategy)
    &&& prefixes_applied(before, after, output, config)
}

/// The documents that a database lists among two neighbouring ranges are
/// those that it lists among the whole.
pub proof fn lemma_chunk_docids_join(
    database: Database,
    settings: &Settings,
    fields: Seq<Seq<u8>>,
    documents: Seq<StoredDocument>,
    from: int,
    middle: int,
    to: int,
    key: Seq<u8>,
)
    requires
        from <= middle <= to,
    ensures
        chunk_docids(database, settings, fields, documents, from, middle, key).union(
            chunk_docids(database, settings, fields, documents, middle, to, key),
        ) == chunk_docids(database, settings, fields, documents, from, to, key),
{
    let left = chunk_docids(database, settings, fields, documents, from, middle, key);
    let right = chunk_docids(database, settings, fields, documents, middle, to, key);
    let whole = chunk_docids(database, settings, fields, documents, from, to, key);
    assert forall|id: DocumentId| left.union(right).contains(id) == whole.contains(id) by {
        if left.contains(id) {
            let n = choose|n: int|
                from <= n < middle && 0 <= n < documents.len() && (#[trigger] documents[n]).id == id
                    && crate::extract::key_in_document(
                    database,
                    settings,
                    fields,
                    documents[n].document@,
                    key,
                );
            assert(from <= n < to);
        }
        if right.contains(id) {
            let n = choose|n: int|
                middle <= n < to && 0 <= n < documents.len() && (#[trigger] documents[n]).id == id
                    && crate::extract::key_in_document(
                    database,
                    settings,
                    fields,
                    documents[n].document@,
                    key,
                );
            assert(from <= n < to);
        }
        if whole.contains(id) {
            let n = choose|n: int|
                from <= n < to && 0 <= n < documents.len() && (#[trigger] documents[n]).id == id
                    && crate::extract::key_in_document(
                    database,
                    settings,
                    fields,
                    documents[n].document@,
                    key,
                );
            if n < middle {
                assert(left.contains(id));
            } else {
                assert(right.contains(id));
            }
        }
    }
    assert(left.union(right) =~= whole);
}

/// `ranges` cuts `count` documents into chunks of `size`: the ranges
/// follow one another from the first document to the last, none is
/// empty, and each holds `size` documents but for the last one, which
/// holds what is left.
pub open spec fn is_cut_of(ranges: Seq<(usize, usize)>, count: int, size: int) -> bool {
    &&& (ranges.len() == 0) == (count == 0)
    &&& ranges.len() > 0 ==> ranges[0].0 == 0 && ranges.last().1 == count
    &&& forall|i: int|
        0 <= i < ranges.len() ==> (#[trigger] ranges[i]).0 < ranges[i].1 && ranges[i].1
            - ranges[i].0 <= size
    &&& forall|i: int|
        0 <= i < ranges.len() - 1 ==> (#[trigger] ranges[i]).1 - ranges[i].0 == size
            && ranges[i + 1].0 == ranges[i].1
}

/// The ranges into which `count` documents are cut for the extraction,
/// each of `size` documents; of one document where `size` is zero.
pub fn chunk_ranges(count: usize, size: usize) -> (ranges: Vec<(usize, usize)>)
    ensures
        is_cut_of(
            ranges@,
            count as int,
            if size == 0 {
                1
            } else {
                size as int
            },
        ),
{
    let size = if size == 0 {
        1
    } else {
        size
    };
    let mut ranges: Vec<(usize, usize)> = Vec::new();
    let mut from: usize = 0;
    while from < count
        invariant
            size >= 1,
            from <= count,
            (ranges@.len() == 0) == (from == 0),
            ranges@.len() > 0 ==> ranges@[0].0 == 0 && ranges@.last().1 == from,
            forall|i: int|
                0 <= i < ranges@.len() ==> (#[trigger] ranges@[i]).0 < ranges@[i].1 && ranges@[i].1
                    - ranges@[i].0 <= size,
            forall|i: int|
                0 <= i < ranges@.len() - 1 ==> (#[trigger] ranges@[i]).1 - ranges@[i].0 == size
                    && ranges@[i + 1].0 == ranges@[i].1,
            from < count && ranges@.len() > 0 ==> ranges@.last().1 - ranges@.last().0 == size,
        decreases count - from,
    {
        let to = if size < count - from {
            from + size
        } else {
            count
        };
        let ghost before = ranges@;
        ranges.push((from, to));
        proof {
            assert forall|i: int| 0 <= i < ranges@.len() - 1 implies (#[trigger] ranges@[i]).1
                - ranges@[i].0 == size && ranges@[i + 1].0 == ranges@[i].1 by {
                if i < before.len() - 1 {
                    assert(ranges@[i] == before[i] && ranges@[i + 1] == before[i + 1]);
                } else {
                    assert(ranges@[i] == before.last());
                }
            }
            assert forall|i: int| 0 <= i < ranges@.len() implies (#[trigger] ranges@[i]).0
                < ranges@[i].1 && ranges@[i].1 - ranges@[i].0 <= size by {
                if i < before.len() {
                    assert(ranges@[i] == before[i]);
                }
            }
            if before.len() > 0 {
                assert(ranges@[0] == before[0]);
            }
        }
        from = to;
    }
    ranges
}

/// Extracts what `database` holds of the documents of a run, chunk by
/// chunk, and merges the chunks into one. The caller is asked before each
/// chunk whether to go on.
pub fn extract_database<FA: Fn() -> bool>(
    database: Database,
    settings: &Settings,
    fields: &FieldsIdsMap,
    documents: &Vec<StoredDocument>,
    documents_chunk_size: usize,
    should_abort: &FA,
) -> (result: Result<Postings, Error>)
    requires
        call_requires(*should_abort, ()),
        forall|n: int| 0 <= n < documents.len() ==> (#[trigger] documents[n]).document.wf(),
    ensures
        match result {
            Ok(chunk) => chunk.wf() && forall|key: Seq<u8>| #[trigger]
                chunk.docids(key) == new_docids(settings, fields@, documents@, database, key),
            Err(Error::InternalError(InternalError::AbortedIndexation)) => may_abort(should_abort)
                && documents@.len() > 0,
            Err(_) => false,
        },
        documents@.len() == 0 ==> result is Ok,
{
    let size = if documents_chunk_size == 0 {
        1
    } else {
        documents_chunk_size
    };
    let mut merged = Postings::new();
    let mut from: usize = 0;
    proof {
        assert forall|key: Seq<u8>| #[trigger]
            merged.docids(key) == chunk_docids(database, settings, fields@, documents@, 0, 0, key) by {
            assert(chunk_docids(database, settings, fields@, documents@, 0, 0, key)
                =~= Set::<DocumentId>::empty());
        }
    }
    while from < documents.len()
        invariant
            size >= 1,
            from <= documents@.len(),
            merged.wf(),
            call_requires(*should_abort, ()),
            forall|n: int| 0 <= n < documents.len() ==> (#[trigger] documents[n]).document.wf(),
            forall|key: Seq<u8>| #[trigger]
                merged.docids(key) == chunk_docids(
                    database,
                    settings,
                    fields@,
                    documents@,
                    0,
                    from as int,
                    key,
                ),
        decreases documents@.len() - from,
    {
        if should_abort() {
            return Err(Error::InternalError(InternalError::AbortedIndexation));
        }
        let to = if size < documents.len() - from {
            from + size
        } else {
            documents.len()
        };
        let chunk = extract_chunk(database, settings, fields, documents, from, to);
        let ghost before = merged;
        merged.merge(&chunk);
        proof {
            assert forall|key: Seq<u8>| #[trigger]
                merged.docids(key) == chunk_docids(
                    database,
                    settings,
                    fields@,
                    documents@,
                    0,
                    to as int,
                    key,
                ) by {
                assert(before.docids(key) == chunk_docids(
                    database,
                    settings,
                    fields@,
                    documents@,
                    0,
                    from as int,
                    key,
                ));
                lemma_chunk_docids_join(
                    database,
                    settings,
                    fields@,
                    documents@,
                    0,
                    from as int,
                    to as int,
                    key,
                );
            }
        }
        from = to;
    }
    Ok(merged)
}

/// The indexing pipeline for one run.
///
/// Documents are added and removed batch by batch; `execute` then brings
/// the index up to date. The index is handed to each call: it has to be
/// the one that the pipeline was made for, and whoever owns it decides
/// what becomes of the changes.
pub struct IndexDocuments<FP, FA> {
    config: IndexDocumentsConfig,
    indexer_config: IndexerConfig,
    transform: Option<Transform>,
    primary_key: Option<Vec<u8>>,
    progress: FP,
    should_abort: FA,
    added_documents: u64,
    deleted_documents: u64,
}

impl<FP: Fn(UpdateIndexingStep), FA: Fn() -> bool> IndexDocuments<FP, FA> {
    /// How the run treats the documents that it is sent.
    pub closed spec fn config(&self) -> IndexDocumentsConfig {
        self.config
    }

    /// What the machine allows the run.
    pub closed spec fn indexer_config(&self) -> IndexerConfig {
        self.indexer_config
    }

    /// What the pipeline has made of what it was sent.
    pub closed spec fn state(&self) -> TransformState {
        self.transform.unwrap()@
    }

    /// The primary key under which the pipeline reads its batches, once it
    /// is known.
    pub closed spec fn primary_key(&self) -> Option<Seq<u8>> {
        match self.primary_key {
            Some(name) => Some(name@),
            None => None,
        }
    }

    /// The number of documents that were read.
    pub closed spec fn added(&self) -> u64 {
        self.added_documents
    }

    /// The number of documents that were removed.
    pub closed spec fn deleted(&self) -> u64 {
        self.deleted_documents
    }

    /// The predicate that tells whether the work is to stop.
    pub closed spec fn should_abort(&self) -> &FA {
        &self.should_abort
    }

    /// The callback that is told of the progress.
    pub closed spec fn progress(&self) -> &FP {
        &self.progress
    }

    /// The pipeline is sound and was made for `index`.
    pub closed spec fn wf_for(&self, index: &Index) -> bool {
        &&& self.transform.is_some()
        &&& self.transform.unwrap().wf_for(index)
        &&& self.transform.unwrap().method() == self.config.update_method
        &&& call_requires(self.should_abort, ())
        &&& forall|step: UpdateIndexingStep| call_requires(self.progress, (step,))
        &&& index.primary_key().is_some() ==> self.primary_key() == index.primary_key()
    }

    /// The two pipelines differ at most in what they have read.
    pub open spec fn same_run(&self, other: &Self) -> bool {
        &&& self.config() == other.config()
        &&& self.indexer_config() == other.indexer_config()
        &&& self.should_abort() == other.should_abort()
        &&& self.progress() == other.progress()
    }

    /// The two pipelines have read the same.
    pub open spec fn same_reading(&self, other: &Self) -> bool {
        &&& self.state() == other.state()
        &&& self.primary_key() == other.primary_key()
        &&& self.added() == other.added()
        &&& self.deleted() == other.deleted()
    }

    /// A pipeline for `index` that has read nothing.
    pub fn new(
        index: &Index,
        indexer_config: IndexerConfig,
        config: IndexDocumentsConfig,
        progress: FP,
        should_abort: FA,
    ) -> (result: Result<IndexDocuments<FP, FA>, Error>)
        requires
            index.wf(),
            call_requires(should_abort, ()),
            forall|step: UpdateIndexingStep| call_requires(progress, (step,)),
        ensures
            match result {
                Ok(pipeline) => {
                    &&& pipeline.wf_for(index)
                    &&& pipeline.config() == config
                    &&& pipeline.indexer_config() == indexer_config
                    &&& pipeline.state() == crate::transform::initial_state(index)
                    &&& pipeline.primary_key() == index.primary_key()
                    &&& pipeline.added() == 0
                    &&& pipeline.deleted() == 0
                    &&& *pipeline.should_abort() == should_abort
                    &&& *pipeline.progress() == progress
                },
                Err(_) => false,
            },
    {
        let transform = Transform::new(index, config.update_method);
        let primary_key = match index.get_primary_key() {
            Some(name) => Some(crate::bytes::copy_bytes(name.as_slice())),
            None => None,
        };
        Ok(
            IndexDocuments {
                transform: Some(transform),
                config,
                indexer_config,
                primary_key,
                progress,
                should_abort,
                added_documents: 0,
                deleted_documents: 0,
            },
        )
    }

    /// Adds a batch of documents to the current builder.
    ///
    /// A fault of the documents themselves (no primary key, no or no valid
    /// identifier) is handed back beside the pipeline, which has not
    /// changed and can be sent other documents. Any other fault ends the
    /// run, and the pipeline is gone.
    ///
    /// Returns the number of documents added to the builder.
    pub fn add_documents(self, index: &Index, batch: &Vec<RawDocument>) -> (result: Result<
        (Self, Result<u64, UserError>),
        Error,
    >)
        requires
            self.wf_for(index),
        ensures
            match result {
                Ok((next, outcome)) => {
                    &&& next.wf_for(index)
                    &&& next.same_run(&self)
                    &&& next.deleted() == self.deleted()
                    &&& match outcome {
                        Ok(count) => {
                            let key = resolved_key(
                                self.primary_key(),
                                self.config().autogenerate_docids,
                                batch@,
                            );
                            &&& count == batch@.len()
                            &&& next.added() == counted(self.added(), batch@.len())
                            &&& batch@.len() == 0 ==> next.same_reading(&self)
                            &&& batch@.len() > 0 ==> {
                                &&& key.is_some()
                                &&& next.primary_key() == key
                                &&& batch_is_sound(
                                    batch@,
                                    key.unwrap(),
                                    self.config().autogenerate_docids,
                                )
                                &&& state_after_batch(
                                    index,
                                    self.config().update_method,
                                    self.state(),
                                    enriched_batch(
                                        batch@,
                                        key.unwrap(),
                                        self.config().autogenerate_docids,
                                    ),
                                ) == Ok::<TransformState, UserError>(next.state())
                            }
                        },
                        Err(fault) => {
                            let key = resolved_key(
                                self.primary_key(),
                                self.config().autogenerate_docids,
                                batch@,
                            );
                            &&& next.same_reading(&self)
                            &&& batch@.len() > 0
                            &&& key.is_some() ==> exists|i: int|
                                #[trigger] is_first_fault(
                                    batch@,
                                    key.unwrap(),
                                    self.config().autogenerate_docids,
                                    i,
                                ) && reports(
                                    fault,
                                    enriched(
                                        batch@[i],
                                        key.unwrap(),
                                        self.config().autogenerate_docids,
                                    ),
                                    i,
                                )
                            &&& key.is_none() ==> match fault {
                                UserError::NoPrimaryKeyCandidateFound => forall|name: Seq<u8>|
                                    !#[trigger] is_batch_candidate(batch@, name),
                                UserError::MultiplePrimaryKeyCandidatesFound { candidates } => {
                                    &&& candidates@.len() >= 2
                                    &&& shortlex_sorted(candidates@)
                                    &&& forall|name: Seq<u8>| #[trigger]
                                        names_contain(candidates@, name) <==> is_batch_candidate(
                                            batch@,
                                            name,
                                        )
                                },
                                _ => false,
                            }
                        },
                    }
                },
                Err(Error::UserError(fault)) => {
                    let key = resolved_key(
                        self.primary_key(),
                        self.config().autogenerate_docids,
                        batch@,
                    );
                    &&& key.is_some()
                    &&& batch_is_sound(batch@, key.unwrap(), self.config().autogenerate_docids)
                    &&& state_after_batch(
                        index,
                        self.config().update_method,
                        self.state(),
                        enriched_batch(batch@, key.unwrap(), self.config().autogenerate_docids),
                    ) == Err::<TransformState, UserError>(fault)
                },
                Err(Error::InternalError(InternalError::AbortedIndexation)) => {
                    let key = resolved_key(
                        self.primary_key(),
                        self.config().autogenerate_docids,
                        batch@,
                    );
                    &&& may_abort(self.should_abort())
                    &&& batch@.len() > 0
                    &&& key.is_some()
                    &&& batch_is_sound(batch@, key.unwrap(), self.config().autogenerate_docids)
                },
            },
            batch@.len() == 0 ==> match result {
                Ok((_, outcome)) => outcome == Ok::<u64, UserError>(0),
                Err(_) => false,
            },
            batch@.len() > 0 && !batch_is_readable(
                self.primary_key(),
                self.config().autogenerate_docids,
                batch@,
            ) ==> match result {
                Ok((_, outcome)) => outcome is Err,
                Err(_) => false,
            },
    {
        // Early return when there is no document to add
        if batch.len() == 0 {
            return Ok((self, Ok(0)));
        }
        let ghost before = self;
        let IndexDocuments {
            config,
            indexer_config,
            transform,
            primary_key,
            progress,
            should_abort,
            added_documents,
            deleted_documents,
        } = self;
        let autogenerate = config.autogenerate_docids;
        let known: Option<&Vec<u8>> = match &primary_key {
            Some(name) => Some(name),
            None => None,
        };
        // A fault of the documents leaves the pipeline as it is, and more
        // documents can be sent to it. Any other fault ends the run.
        let key = match resolve_primary_key(known, autogenerate, batch) {
            Ok(key) => key,
            Err(fault) => {
                let same = IndexDocuments {
                    config,
                    indexer_config,
                    transform,
                    primary_key,
                    progress,
                    should_abort,
                    added_documents,
                    deleted_documents,
                };
                return Ok((same, Err(fault)));
            },
        };
        let documents = match enrich_documents_batch(key.as_slice(), autogenerate, batch) {
            Ok(documents) => documents,
            Err(fault) => {
                let same = IndexDocuments {
                    config,
                    indexer_config,
                    transform,
                    primary_key,
                    progress,
                    should_abort,
                    added_documents,
                    deleted_documents,
                };
                return Ok((same, Err(fault)));
            },
        };
        proof {
            assert(document_views(documents@) =~= enriched_batch(batch@, key@, autogenerate));
        }
        let mut transform = transform.unwrap();
        let indexed_documents = match transform.read_documents(index, &documents, &should_abort) {
            Ok(count) => count,
            Err(fault) => {
                return Err(fault);
            },
        };
        let next = IndexDocuments {
            config,
            indexer_config,
            transform: Some(transform),
            primary_key: Some(key),
            progress,
            should_abort,
            added_documents: count_more(added_documents, indexed_documents),
            deleted_documents,
        };
        Ok((next, Ok(indexed_documents as u64)))
    }

    /// Remove a batch of documents from the current builder.
    ///
    /// Returns the number of documents deleted from the builder.
    pub fn remove_documents(self, index: &Index, to_delete: Vec<Vec<u8>>) -> (result: Result<
        (Self, Result<u64, UserError>),
        Error,
    >)
        requires
            self.wf_for(index),
        ensures
            match result {
                Ok((next, outcome)) => {
                    &&& next.wf_for(index)
                    &&& next.same_run(&self)
                    &&& next.added() == self.added()
                    &&& next.primary_key() == self.primary_key()
                    &&& next.state() == state_after_removals(self.state(), index, to_delete@)
                    &&& outcome == Ok::<u64, UserError>(
                        removals_counted(self.state(), index, to_delete@) as u64,
                    )
                    &&& next.deleted() == counted(
                        self.deleted(),
                        removals_counted(self.state(), index, to_delete@),
                    )
                    &&& to_delete@.len() == 0 ==> next.same_reading(&self) && outcome == Ok::<
                        u64,
                        UserError,
                    >(0)
                },
                Err(Error::InternalError(InternalError::AbortedIndexation)) => may_abort(
                    self.should_abort(),
                ) && to_delete@.len() > 0,
                Err(_) => false,
            },
            to_delete@.len() == 0 ==> result is Ok,
    {
        // Early return when there is no document to add
        if to_delete.len() == 0 {
            return Ok((self, Ok(0)));
        }
        let IndexDocuments {
            config,
            indexer_config,
            transform,
            primary_key,
            progress,
            should_abort,
            added_documents,
            deleted_documents,
        } = self;
        let mut transform = transform.unwrap();
        let deleted = match transform.remove_documents(index, &to_delete, &should_abort) {
            Ok(count) => count,
            Err(fault) => {
                return Err(fault);
            },
        };
        let next = IndexDocuments {
            config,
            indexer_config,
            transform: Some(transform),
            primary_key,
            progress,
            should_abort,
            added_documents,
            deleted_documents: count_more(deleted_documents, deleted),
        };
        Ok((next, Ok(deleted as u64)))
    }

    /// Brings the index up to date with what the pipeline has read, and
    /// tells how many documents the index has afterwards.
    ///
    /// Nothing changes when no document was added. Otherwise the planned
    /// documents replace the stored documents that they name, every
    /// posting database gains what the new documents hold, the strings
    /// of their filterable fields are written, and the prefixes follow. When the caller asks for a stop the run ends with
    /// `AbortedIndexation`, and the index holds what was written until
    /// then; nothing is written before the caller has been asked once.
    pub fn execute(self, index: &mut Index) -> (result: Result<DocumentAdditionResult, Error>)
        requires
            self.wf_for(old(index)),
        ensures
            self.added() == 0 ==> *final(index) == *old(index) && result == Ok::<
                DocumentAdditionResult,
                Error,
            >(
                DocumentAdditionResult {
                    indexed_documents: 0,
                    number_of_documents: old(index).live().len() as u64,
                },
            ),
            self.added() > 0 ==> match result {
                Ok(addition) => {
                    &&& may_continue(self.should_abort())
                    &&& addition.indexed_documents == self.added()
                    &&& addition.number_of_documents == final(index).live().len()
                    &&& exists|output: TransformOutput|
                        #![trigger output.realizes(self.state())]
                        output.realizes(self.state()) && output.fits(old(index)) && output_applied(
                            old(index),
                            final(index),
                            &output,
                            self.config(),
                        ) && facet_values_applied(
                            old(index),
                            final(index),
                            &output,
                            self.config().deletion_strategy,
                        ) && output.primary_key.is_some() == self.primary_key().is_some() && (
                        output.primary_key.is_some() ==> Some(output.primary_key.unwrap()@)
                            == self.primary_key())
                },
                Err(Error::InternalError(InternalError::AbortedIndexation)) => may_abort(
                    self.should_abort(),
                ) && final(index).wf(),
                Err(_) => false,
            },
            self.added() > 0 && !may_continue(self.should_abort()) ==> result.is_err()
                && *final(index) == *old(index),
    {
        if self.added_documents == 0 {
            let number_of_documents = index.number_of_documents();
            return Ok(DocumentAdditionResult { indexed_documents: 0, number_of_documents });
        }
        let IndexDocuments {
            config,
            indexer_config,
            transform,
            primary_key,
            progress,
            should_abort,
            added_documents,
            deleted_documents: _,
        } = self;
        let documents_count = if added_documents <= usize::MAX as u64 {
            added_documents as usize
        } else {
            usize::MAX
        };
        let output = transform.unwrap().output_from_sorter(index, primary_key, documents_count);
        let ghost given = output;
        let indexed_documents = added_documents;
        let stop = ask(&should_abort);
        let number_of_documents = match raw_stage(
            &config,
            &indexer_config,
            &progress,
            &should_abort,
            index,
            output,
            stop,
        ) {
            Ok(count) => count,
            Err(fault) => {
                return Err(fault);
            },
        };
        proof {
            assert(given.realizes(self.state()) && given.fits(old(index)) && output_applied(
                old(index),
                index,
                &given,
                self.config(),
            ) && facet_values_applied(
                old(index),
                index,
                &given,
                self.config().deletion_strategy,
            ));
        }
        Ok(DocumentAdditionResult { indexed_documents, number_of_documents })
    }

    /// Brings the index up to date with the output of a transform: see
    /// `output_applied` and `facet_values_applied`.
    ///
    /// Returns the total number of documents in the index after the update.
    pub fn execute_raw(self, index: &mut Index, output: TransformOutput) -> (result: Result<
        u64,
        Error,
    >)
        requires
            self.callable(),
            output.fits(old(index)),
        ensures
            match result {
                Ok(count) => {
                    &&& may_continue(self.should_abort())
                    &&& output_applied(old(index), final(index), &output, self.config())
                    &&& facet_values_applied(
                        old(index),
                        final(index),
                        &output,
                        self.config().deletion_strategy,
                    )
                    &&& count == final(index).live().len()
                },
                Err(Error::InternalError(InternalError::AbortedIndexation)) => may_abort(
                    self.should_abort(),
                ) && final(index).wf(),
                Err(_) => false,
            },
            !may_continue(self.should_abort()) ==> result.is_err() && *final(index) == *old(index),
    {
        let stop = ask(&self.should_abort);
        self.execute_raw_once_asked(index, output, stop)
    }

    /// What `execute_raw` does once the caller has been asked for the
    /// first time whether to stop, and has answered `stop`.
    ///
    /// Where the answer is to stop, the run ends with `AbortedIndexation`
    /// and the index is what it was: no database is touched.
    pub fn execute_raw_once_asked(self, index: &mut Index, output: TransformOutput, stop: bool) -> (result:
        Result<u64, Error>)
        requires
            self.callable(),
            call_ensures(*self.should_abort(), (), stop),
            output.fits(old(index)),
        ensures
            stop ==> result == Err::<u64, Error>(
                Error::InternalError(InternalError::AbortedIndexation),
            ) && *final(index) == *old(index),
            match result {
                Ok(count) => {
                    &&& !stop
                    &&& output_applied(old(index), final(index), &output, self.config())
                    &&& facet_values_applied(
                        old(index),
                        final(index),
                        &output,
                        self.config().deletion_strategy,
                    )
                    &&& count == final(index).live().len()
                },
                Err(Error::InternalError(InternalError::AbortedIndexation)) => may_abort(
                    self.should_abort(),
                ) && final(index).wf(),
                Err(_) => false,
            },
    {
        raw_stage(
            &self.config,
            &self.indexer_config,
            &self.progress,
            &self.should_abort,
            index,
            output,
            stop,
        )
    }

    /// Brings the prefixes and the prefix databases up to date, after the
    /// posting databases were merged.
    ///
    /// The set of frequent prefixes is computed anew from the database of
    /// the words. Each chunk holds what the run has added to one posting
    /// database; the prefix database that is built on it is updated with
    /// the difference between the earlier set of prefixes and the new one,
    /// and stays as it is where no chunk is given. The caller is asked
    /// before each step whether to go on.
    pub fn execute_prefix_databases(
        self,
        index: &mut Index,
        word_docids: Option<Postings>,
        exact_word_docids: Option<Postings>,
        word_pair_proximity_docids: Option<Postings>,
        word_position_docids: Option<Postings>,
        word_fid_docids: Option<Postings>,
    ) -> (result: Result<(), Error>)
        requires
            self.callable(),
            old(index).wf(),
            (PrefixChunks {
                word_docids,
                exact_word_docids,
                word_pair_proximity_docids,
                word_position_docids,
                word_fid_docids,
            }).wf(),
        ensures
            match result {
                Ok(()) => may_continue(self.should_abort()) && prefixes_updated(
                    old(index),
                    final(index),
                    self.config(),
                    &(PrefixChunks {
                        word_docids,
                        exact_word_docids,
                        word_pair_proximity_docids,
                        word_position_docids,
                        word_fid_docids,
                    }),
                ),
                Err(Error::InternalError(InternalError::AbortedIndexation)) => {
                    &&& may_abort(self.should_abort())
                    &&& final(index).wf()
                    &&& final(index).same_catalogue(old(index))
                    &&& final(index).same_documents(old(index))
                    &&& final(index).same_postings(old(index))
                },
                Err(_) => false,
            },
            !may_continue(self.should_abort()) ==> result.is_err() && *final(index) == *old(index),
    {
        let chunks = PrefixChunks {
            word_docids,
            exact_word_docids,
            word_pair_proximity_docids,
            word_position_docids,
            word_fid_docids,
        };
        prefix_stage(&self.config, &self.progress, &self.should_abort, index, &chunks)
    }

    /// The callbacks of the pipeline can be called.
    pub closed spec fn callable(&self) -> bool {
        &&& call_requires(self.should_abort, ())
        &&& forall|step: UpdateIndexingStep| call_requires(self.progress, (step,))
    }

    /// A pipeline that is sound has callbacks that can be called.
    pub proof fn lemma_callable(&self, index: &Index)
        requires
            self.wf_for(index),
        ensures
            self.callable(),
    {
    }
}

/// Storing a chunk that stands before the documents that are stored
/// already stores the documents from the start of the chunk on.
proof fn lemma_stored_more(
    listed: &Index,
    before: &Index,
    after: &Index,
    all: Seq<StoredDocument>,
    chunk: Seq<StoredDocument>,
    from: int,
    end: int,
)
    requires
        0 <= from <= end <= all.len(),
        chunk == all.subrange(from, end),
        stored(listed, before, all, end),
        stored(before, after, chunk, 0),
    ensures
        stored(listed, after, all, from),
{
    assert(ids_from(all, from) =~= ids_from(all, end).union(ids_from(chunk, 0))) by {
        assert forall|id: DocumentId|
            ids_from(all, from).contains(id) == ids_from(all, end).union(
                ids_from(chunk, 0),
            ).contains(id) by {
            if ids_from(all, end).contains(id) {
                let n = choose|n: int| end <= n < all.len() && 0 <= n && (#[trigger] all[n]).id == id;
                assert(from <= n < all.len());
            }
            if ids_from(chunk, 0).contains(id) {
                let n = choose|n: int|
                    0 <= n < chunk.len() && 0 <= n && (#[trigger] chunk[n]).id == id;
                assert(all[from + n].id == id);
            }
            if ids_from(all, from).contains(id) {
                let n = choose|n: int|
                    from <= n < all.len() && 0 <= n && (#[trigger] all[n]).id == id;
                if n < end {
                    assert(chunk[n - from].id == id);
                }
            }
        }
    }
    assert(after.live() =~= listed.live().union(ids_from(all, from)));
    assert forall|n: int| from <= n < all.len() && 0 <= n implies {
        &&& after.documents()[(#[trigger] all[n]).id] == all[n].document@
        &&& after.external_id_of(all[n].id) == all[n].external_id@
        &&& after.external_ids().contains_key(all[n].external_id@)
        &&& after.external_ids()[all[n].external_id@] == all[n].id
    } by {
        if n < end {
            assert(chunk[n - from] == all[n]);
        } else {
            assert(ids_from(all, end).contains(all[n].id));
            assert(before.live().contains(all[n].id));
        }
    }
    assert forall|name: Seq<u8>| #[trigger]
        after.external_ids().contains_key(name) <==> listed.external_ids().contains_key(name) || (
        exists|n: int| from <= n < all.len() && 0 <= n && (#[trigger] all[n]).external_id@ == name) by {
        if exists|n: int| end <= n < all.len() && 0 <= n && (#[trigger] all[n]).external_id@ == name {
            let n = choose|n: int|
                end <= n < all.len() && 0 <= n && (#[trigger] all[n]).external_id@ == name;
            assert(from <= n < all.len());
        }
        if exists|n: int| 0 <= n < chunk.len() && 0 <= n && (#[trigger] chunk[n]).external_id@ == name {
            let n = choose|n: int|
                0 <= n < chunk.len() && 0 <= n && (#[trigger] chunk[n]).external_id@ == name;
            assert(all[from + n].external_id@ == name);
        }
        if exists|n: int| from <= n < all.len() && 0 <= n && (#[trigger] all[n]).external_id@ == name {
            let n = choose|n: int|
                from <= n < all.len() && 0 <= n && (#[trigger] all[n]).external_id@ == name;
            if n < end {
                assert(chunk[n - from].external_id@ == name);
            }
        }
    }
    assert forall|id: DocumentId| listed.live().contains(id) implies #[trigger]
        after.documents()[id] == listed.documents()[id] && after.external_id_of(id)
        == listed.external_id_of(id) by {
        assert(before.live().contains(id));
    }
    assert forall|name: Seq<u8>| listed.external_ids().contains_key(name) implies #[trigger]
        after.external_ids()[name] == listed.external_ids()[name] by {
        assert(before.external_ids().contains_key(name));
    }
}

proof fn lemma_documents_applied(
    before: &Index,
    after: &Index,
    output: &TransformOutput,
    strategy: DeletionStrategy,
)
    requires
        after.live() == before.live().difference(
            bitmap_ids(output.replaced_documents_ids),
        ).union(ids_from(output.documents@, 0)),
        after.soft_deleted() == if strategy == DeletionStrategy::AlwaysHard {
            before.soft_deleted().difference(bitmap_ids(output.replaced_documents_ids))
        } else {
            before.soft_deleted().union(bitmap_ids(output.replaced_documents_ids))
        },
        forall|n: int|
            0 <= n < output.documents@.len() ==> {
                &&& after.documents()[(#[trigger] output.documents@[n]).id]
                    == output.documents@[n].document@
                &&& after.external_id_of(output.documents@[n].id)
                    == output.documents@[n].external_id@
                &&& after.external_ids().contains_key(output.documents@[n].external_id@)
                &&& after.external_ids()[output.documents@[n].external_id@]
                    == output.documents@[n].id
            },
        forall|id: DocumentId|
            before.live().contains(id) && !bitmap_ids(output.replaced_documents_ids).contains(id)
                ==> #[trigger] after.documents()[id] == before.documents()[id]
                && after.external_id_of(id) == before.external_id_of(id),
        forall|name: Seq<u8>| #[trigger]
            after.external_ids().contains_key(name) <==> (before.external_ids().contains_key(name)
                && !bitmap_ids(output.replaced_documents_ids).contains(
                before.external_ids()[name],
            )) || (exists|n: int|
                0 <= n < output.documents@.len() && (#[trigger] output.documents@[n]).external_id@
                    == name),
        forall|name: Seq<u8>|
            before.external_ids().contains_key(name) && !bitmap_ids(
                output.replaced_documents_ids,
            ).contains(before.external_ids()[name]) ==> #[trigger] after.external_ids()[name]
                == before.external_ids()[name],
    ensures
        documents_applied(before, after, output, strategy),
{
}

/// `index` is `cleared` with the first `position` databases merged: each
/// of them lists what it listed and what the documents add, and the others
/// are as they were.
pub open spec fn merged_upto(
    cleared: &Index,
    index: &Index,
    documents: Seq<StoredDocument>,
    position: int,
) -> bool {
    &&& index.wf()
    &&& index.same_catalogue(cleared)
    &&& index.same_documents(cleared)
    &&& index.same_prefixes(cleared)
    &&& index.facet_values() == cleared.facet_values()
    &&& forall|database: Database, key: Seq<u8>|
        database_position(database) < position ==> #[trigger] index.postings(database).docids(key)
            == cleared.postings(database).docids(key).union(
            new_docids(&cleared.settings(), cleared.fields(), documents, database, key),
        )
    &&& forall|database: Database|
        database_position(database) >= position ==> #[trigger] index.postings(database)
            == cleared.postings(database)
}

/// `chunk` holds what `database` lists of the documents of a run.
pub open spec fn is_chunk_of(
    chunk: Option<Postings>,
    index: &Index,
    documents: Seq<StoredDocument>,
    database: Database,
) -> bool {
    match chunk {
        Some(held) => held.wf() && forall|key: Seq<u8>| #[trigger]
            held.docids(key) == new_docids(
                &index.settings(),
                index.fields(),
                documents,
                database,
                key,
            ),
        None => false,
    }
}

/// Asks the caller whether the run is to stop.
fn ask<FA: Fn() -> bool>(should_abort: &FA) -> (stop: bool)
    requires
        call_requires(*should_abort, ()),
    ensures
        call_ensures(*should_abort, (), stop),
{
    should_abort()
}

/// `after` is `before` with `chunk` written into it: a chunk of documents
/// is stored, a chunk of postings is merged into its database, a chunk of
/// strings of filterable fields is written over those of the index.
pub open spec fn chunk_written(before: &Index, after: &Index, chunk: TypedChunk) -> bool {
    match chunk {
        TypedChunk::Documents(documents) => stored(before, after, documents@, 0),
        TypedChunk::FieldIdDocidFacetStrings(values) => {
            &&& after.wf()
            &&& after.facet_values() == before.facet_values().union_prefer_right(values@)
            &&& after.same_catalogue(before)
            &&& after.same_documents(before)
            &&& after.same_postings(before)
            &&& after.same_prefixes(before)
        },
        _ => {
            let database = chunk.destination().unwrap();
            let postings = chunk.postings().unwrap();
            &&& after.wf()
            &&& after.facet_values() == before.facet_values()
            &&& forall|key: Seq<u8>| #[trigger]
                after.postings(database).docids(key) == before.postings(database).docids(
                    key,
                ).union(postings.docids(key))
            &&& forall|other: Database|
                other != database ==> #[trigger] after.postings(other) == before.postings(other)
            &&& after.same_catalogue(before)
            &&& after.same_documents(before)
            &&& after.same_prefixes(before)
        },
    }
}

/// The tracker `after` has counted what writing `chunk` brought: the
/// documents of a chunk of documents, one database for a chunk of
/// postings, as long as the merge has steps left to count, and nothing
/// for a chunk of strings of filterable fields.
pub open spec fn chunk_counted(before: &ProgressTracker, after: &ProgressTracker, chunk: TypedChunk) -> bool {
    &&& after.total_documents() == before.total_documents()
    &&& match chunk {
        TypedChunk::Documents(documents) => {
            &&& after.databases_seen() == before.databases_seen()
            &&& after.documents_seen() == if before.documents_seen() + ids_from(
                documents@,
                0,
            ).len() <= usize::MAX {
                before.documents_seen() + ids_from(documents@, 0).len()
            } else {
                usize::MAX as nat
            }
        },
        TypedChunk::FieldIdDocidFacetStrings(_) => {
            &&& after.databases_seen() == before.databases_seen()
            &&& after.documents_seen() == before.documents_seen()
        },
        _ => {
            &&& after.documents_seen() == before.documents_seen()
            &&& after.databases_seen() == if before.databases_seen() < MERGED_DATABASE_COUNT {
                before.databases_seen() + 1
            } else {
                before.databases_seen()
            }
        },
    }
}

/// What the consumer of the typed chunks does with what a worker has
/// sent.
///
/// The caller is asked first whether to go on. A fault that a worker
/// reports ends the run, and nothing is written. A chunk is written into
/// the index, and `progress` is told of the documents that were stored
/// or of the database that was merged.
pub fn merge_received<FP: Fn(UpdateIndexingStep), FA: Fn() -> bool>(
    index: &mut Index,
    tracker: &mut ProgressTracker,
    received: Result<TypedChunk, Error>,
    progress: &FP,
    should_abort: &FA,
) -> (result: Result<(), Error>)
    requires
        old(index).wf(),
        call_requires(*should_abort, ()),
        forall|step: UpdateIndexingStep| call_requires(*progress, (step,)),
        match received {
            Ok(chunk) => chunk.fits(old(index)),
            Err(_) => true,
        },
    ensures
        match result {
            Ok(()) => {
                &&& may_continue(should_abort)
                &&& match received {
                    Ok(chunk) => chunk_written(old(index), final(index), chunk) && chunk_counted(
                        old(tracker),
                        final(tracker),
                        chunk,
                    ),
                    Err(_) => false,
                }
            },
            Err(fault) => {
                &&& *final(index) == *old(index)
                &&& *final(tracker) == *old(tracker)
                &&& (fault == Error::InternalError(InternalError::AbortedIndexation) && may_abort(
                    should_abort,
                )) || (may_continue(should_abort) && received == Err::<TypedChunk, Error>(fault))
            },
        },
{
    if should_abort() {
        return Err(Error::InternalError(InternalError::AbortedIndexation));
    }
    let typed_chunk = match received {
        Ok(chunk) => chunk,
        Err(fault) => {
            return Err(fault);
        },
    };
    let (docids, is_merged_database) = write_typed_chunk_into_index(typed_chunk, index);
    if !bitmap_is_empty(&docids) {
        progress(tracker.documents_indexed(bitmap_len(&docids)));
    }
    if is_merged_database && tracker.databases_seen < MERGED_DATABASE_COUNT {
        progress(tracker.database_merged());
    }
    Ok(())
}

/// What is left of the strings of filterable fields once `replaced` are
/// deleted: under `AlwaysSoft` the strings of deleted documents stay.
pub open spec fn kept_values(
    values: Map<Seq<u8>, Seq<u8>>,
    replaced: Set<DocumentId>,
    strategy: DeletionStrategy,
) -> Map<Seq<u8>, Seq<u8>> {
    if strategy == DeletionStrategy::AlwaysHard {
        without_documents(values, replaced)
    } else {
        values
    }
}

/// The strings of filterable fields of `after` are those that `before`
/// kept, with those of the documents of `output` written over them.
pub open spec fn facet_values_applied(
    before: &Index,
    after: &Index,
    output: &TransformOutput,
    strategy: DeletionStrategy,
) -> bool {
    exists|chunk: Map<Seq<u8>, Seq<u8>>| #[trigger]
        is_values_of(
            chunk,
            &before.settings(),
            output.fields_ids_map@,
            output.documents@,
            0,
            output.documents@.len() as int,
        ) && after.facet_values() == kept_values(
            before.facet_values(),
            bitmap_ids(output.replaced_documents_ids),
            strategy,
        ).union_prefer_right(chunk)
}

/// What a run brings about does not depend on the strings of filterable
/// fields: an index that differs from `after` in them alone is brought
/// about as well.
proof fn lemma_applied_besides_values(
    before: &Index,
    after: &Index,
    last: &Index,
    output: &TransformOutput,
    config: IndexDocumentsConfig,
)
    requires
        output_applied(before, after, output, config),
        last.wf(),
        last.same_catalogue(after),
        last.same_documents(after),
        last.same_postings(after),
        last.same_prefixes(after),
    ensures
        output_applied(before, last, output, config),
{
    assert(documents_applied(before, last, output, config.deletion_strategy));
    assert(postings_applied(before, last, output, config.deletion_strategy)) by {
        assert forall|database: Database, key: Seq<u8>| #[trigger]
            last.postings(database).docids(key) == kept_docids(
                before.postings(database).docids(key),
                bitmap_ids(output.replaced_documents_ids),
                config.deletion_strategy,
            ).union(
                new_docids(
                    &before.settings(),
                    output.fields_ids_map@,
                    output.documents@,
                    database,
                    key,
                ),
            ) by {
            assert(last.postings(database) == after.postings(database));
        }
    }
    assert(prefixes_applied(before, last, output, config)) by {
        assert(last.postings(Database::WordDocids) == after.postings(Database::WordDocids));
        assert forall|database: PrefixDatabase, key: Seq<u8>| #[trigger]
            last.prefix_postings(database).docids(key) == after.prefix_postings(database).docids(
                key,
            ) by {
            assert(last.prefix_postings(database) == after.prefix_postings(database));
        }
        assert forall|database: PrefixDatabase| #[trigger]
            last.postings(source_of(database)) == after.postings(source_of(database)) by {}
    }
}

/// The merge stage and the prefix stage of a run, with the strings of
/// filterable fields written last: see `IndexDocuments::execute_raw`.
/// `stop` is what the caller has answered when it was first asked.
fn raw_stage<FP: Fn(UpdateIndexingStep), FA: Fn() -> bool>(
    config: &IndexDocumentsConfig,
    indexer_config: &IndexerConfig,
    progress: &FP,
    should_abort: &FA,
    index: &mut Index,
    output: TransformOutput,
    stop: bool,
) -> (result: Result<u64, Error>)
    requires
        call_requires(*should_abort, ()),
        call_ensures(*should_abort, (), stop),
        forall|step: UpdateIndexingStep| call_requires(*progress, (step,)),
        output.fits(old(index)),
    ensures
        stop ==> result == Err::<u64, Error>(
            Error::InternalError(InternalError::AbortedIndexation),
        ) && *final(index) == *old(index),
        match result {
            Ok(count) => {
                &&& !stop
                &&& may_continue(should_abort)
                &&& output_applied(old(index), final(index), &output, *config)
                &&& facet_values_applied(
                    old(index),
                    final(index),
                    &output,
                    config.deletion_strategy,
                )
                &&& count == final(index).live().len()
            },
            Err(Error::InternalError(InternalError::AbortedIndexation)) => may_abort(should_abort)
                && final(index).wf(),
            Err(_) => false,
        },
        !may_continue(should_abort) ==> result.is_err() && *final(index) == *old(index),
{
    // Nothing is written where the first answer of the caller is to stop.
    if stop {
        return Err(Error::InternalError(InternalError::AbortedIndexation));
    }
    let values = extract_facet_values(
        index.get_settings(),
        &output.fields_ids_map,
        &output.documents,
        0,
        output.documents.len(),
    );
    let ghost given = output;
    let count = match merge_stage(config, indexer_config, progress, should_abort, index, output) {
        Ok(count) => count,
        Err(fault) => {
            return Err(fault);
        },
    };
    let ghost merged = *index;
    let ghost chunk = values@;
    index.write_facet_values(values);
    proof {
        lemma_applied_besides_values(old(index), &merged, index, &given, *config);
        assert(is_values_of(
            chunk,
            &old(index).settings(),
            given.fields_ids_map@,
            given.documents@,
            0,
            given.documents@.len() as int,
        ));
    }
    Ok(count)
}

/// The merge stage and the prefix stage of a run, once the caller has
/// answered that the run may go on.
#[verifier::rlimit(60)]
fn merge_stage<FP: Fn(UpdateIndexingStep), FA: Fn() -> bool>(
    config: &IndexDocumentsConfig,
    indexer_config: &IndexerConfig,
    progress: &FP,
    should_abort: &FA,
    index: &mut Index,
    output: TransformOutput,
) -> (result: Result<u64, Error>)
    requires
        may_continue(should_abort),
        call_requires(*should_abort, ()),
        forall|step: UpdateIndexingStep| call_requires(*progress, (step,)),
        output.fits(old(index)),
    ensures
        match result {
            Ok(count) => {
                &&& may_continue(should_abort)
                &&& output_applied(old(index), final(index), &output, *config)
                &&& final(index).facet_values() == kept_values(
                    old(index).facet_values(),
                    bitmap_ids(output.replaced_documents_ids),
                    config.deletion_strategy,
                )
                &&& count == final(index).live().len()
            },
            Err(Error::InternalError(InternalError::AbortedIndexation)) => may_abort(should_abort)
                && final(index).wf(),
            Err(_) => false,
        },
{
    let ghost given = output;
    let TransformOutput {
        primary_key,
        fields_ids_map,
        new_documents_ids: _,
        replaced_documents_ids,
        documents_count,
        documents,
    } = output;
    let ghost replaced = bitmap_ids(replaced_documents_ids);
    let ghost strategy = config.deletion_strategy;

    // The catalogue is stored first, so that the rest of the run sees
    // the fields that the batches brought.
    index.put_fields_ids_map(fields_ids_map);

    // The documents that are replaced leave before anything is merged,
    // so that all the new documents can simply be inserted.
    if !bitmap_is_empty(&replaced_documents_ids) {
        let _ = index.delete_documents(&replaced_documents_ids, config.deletion_strategy);
    }
    let ghost cleared = *index;
    proof {
        old(index).lemma_wf();
        assert(old(index).live().intersect(replaced) =~= replaced);
        assert(cleared.live() =~= old(index).live().difference(replaced));
        assert(cleared.soft_deleted() =~= if strategy == DeletionStrategy::AlwaysHard {
            old(index).soft_deleted().difference(replaced)
        } else {
            old(index).soft_deleted().union(replaced)
        });
        assert forall|database: Database, key: Seq<u8>| #[trigger]
            cleared.postings(database).docids(key) == kept_docids(
                old(index).postings(database).docids(key),
                replaced,
                strategy,
            ) by {
            assert(old(index).postings(database).docids(key).difference(Set::<DocumentId>::empty())
                =~= old(index).postings(database).docids(key));
        }
        assert forall|database: PrefixDatabase, key: Seq<u8>| #[trigger]
            cleared.prefix_postings(database).docids(key) == kept_docids(
                old(index).prefix_postings(database).docids(key),
                replaced,
                strategy,
            ) by {
            assert(old(index).prefix_postings(database).docids(key).difference(
                Set::<DocumentId>::empty(),
            ) =~= old(index).prefix_postings(database).docids(key));
        }
        assert(can_store(&cleared, documents@, 0));
    }

    let mut tracker = ProgressTracker::new(0, documents_count);
    progress(tracker.databases());
    let documents_chunk_size = match indexer_config.documents_chunk_size {
        Some(size) => size,
        None => DEFAULT_DOCUMENTS_CHUNK_SIZE,
    };
    let mut word_docids: Option<Postings> = None;
    let mut exact_word_docids: Option<Postings> = None;
    let mut word_fid_docids: Option<Postings> = None;
    let mut word_position_docids: Option<Postings> = None;
    let mut word_pair_proximity_docids: Option<Postings> = None;
    let mut position: usize = 0;
    proof {
        assert(merged_upto(&cleared, index, documents@, 0));
    }
    while position < POSTING_DATABASE_COUNT
        invariant
            position <= POSTING_DATABASE_COUNT,
            may_continue(should_abort),
            call_requires(*should_abort, ()),
            forall|step: UpdateIndexingStep| call_requires(*progress, (step,)),
            tracker.databases_seen() == if position < MERGED_DATABASE_COUNT {
                position
            } else {
                MERGED_DATABASE_COUNT
            },
            tracker.total_documents() == documents_count,
            tracker.documents_seen() == 0,
            forall|n: int| 0 <= n < documents.len() ==> (#[trigger] documents[n]).document.wf(),
            cleared.wf(),
            merged_upto(&cleared, index, documents@, position as int),
            position > 0 ==> is_chunk_of(word_docids, &cleared, documents@, Database::WordDocids),
            position > 1 ==> is_chunk_of(
                exact_word_docids,
                &cleared,
                documents@,
                Database::ExactWordDocids,
            ),
            position > 2 ==> is_chunk_of(
                word_fid_docids,
                &cleared,
                documents@,
                Database::WordFidDocids,
            ),
            position > 3 ==> is_chunk_of(
                word_position_docids,
                &cleared,
                documents@,
                Database::WordPositionDocids,
            ),
            position > 4 ==> is_chunk_of(
                word_pair_proximity_docids,
                &cleared,
                documents@,
                Database::WordPairProximityDocids,
            ),
        decreases POSTING_DATABASE_COUNT - position,
    {
        let database = database_at(position);
        let chunk = match extract_database(
            database,
            index.get_settings(),
            index.fields_ids_map(),
            &documents,
            documents_chunk_size,
            should_abort,
        ) {
            Ok(chunk) => chunk,
            Err(fault) => {
                return Err(fault);
            },
        };
        // What the run adds to the words is kept for the prefix stage.
        if position == 0 {
            word_docids = Some(chunk.copy());
        } else if position == 1 {
            exact_word_docids = Some(chunk.copy());
        } else if position == 2 {
            word_fid_docids = Some(chunk.copy());
        } else if position == 3 {
            word_position_docids = Some(chunk.copy());
        } else if position == 4 {
            word_pair_proximity_docids = Some(chunk.copy());
        }
        let ghost before = *index;
        let typed_chunk = TypedChunk::from_postings(database, chunk);
        let _ = write_typed_chunk_into_index(typed_chunk, index);
        // The merge has its share of the steps of the run: where there
        // are more databases than that, the last ones are not told of.
        if tracker.databases_seen < MERGED_DATABASE_COUNT {
            progress(tracker.database_merged());
        }
        proof {
            assert forall|other: Database, key: Seq<u8>|
                database_position(other) < position + 1 implies #[trigger] index.postings(
                other,
            ).docids(key) == cleared.postings(other).docids(key).union(
                new_docids(&cleared.settings(), cleared.fields(), documents@, other, key),
            ) by {
                if other == database {
                    assert(before.postings(other) == cleared.postings(other));
                } else {
                    assert(database_position(other) < position);
                    assert(index.postings(other) == before.postings(other));
                }
            }
            assert forall|other: Database| database_position(other) >= position + 1 implies #[trigger]
                index.postings(other) == cleared.postings(other) by {
                assert(other != database);
                assert(index.postings(other) == before.postings(other));
            }
        }
        position += 1;
    }
    let ghost listed = *index;
    proof {
        assert(can_store(&listed, documents@, 0));
    }
    // The documents are written chunk by chunk. The chunks are taken from
    // the end of the batch, where the vector gives them up without moving
    // the rest.
    let mut rest = documents;
    proof {
        assert(ids_from(given.documents@, given.documents@.len() as int) =~= Set::<
            DocumentId,
        >::empty());
        assert(listed.live().union(ids_from(given.documents@, given.documents@.len() as int))
            =~= listed.live());
    }
    while rest.len() > 0
        invariant
            may_continue(should_abort),
            call_requires(*should_abort, ()),
            forall|step: UpdateIndexingStep| call_requires(*progress, (step,)),
            rest@ == given.documents@.subrange(0, rest@.len() as int),
            rest@.len() <= given.documents@.len(),
            listed.wf(),
            can_store(&listed, given.documents@, 0),
            stored(&listed, index, given.documents@, rest@.len() as int),
        decreases rest@.len(),
    {
        if should_abort() {
            return Err(Error::InternalError(InternalError::AbortedIndexation));
        }
        let size = if documents_chunk_size == 0 || documents_chunk_size > rest.len() {
            rest.len()
        } else {
            documents_chunk_size
        };
        let ghost end = rest@.len() as int;
        let ghost before = *index;
        let chunk = rest.split_off(rest.len() - size);
        proof {
            let all = given.documents@;
            let from = end - size;
            assert(rest@ =~= all.subrange(0, from));
            assert(chunk@ =~= all.subrange(from, end));
            assert(can_store(&before, chunk@, 0)) by {
                assert forall|n: int| 0 <= n < chunk@.len() implies {
                    &&& (#[trigger] chunk@[n]).document.wf()
                    &&& !before.live().contains(chunk@[n].id)
                    &&& !before.soft_deleted().contains(chunk@[n].id)
                    &&& !before.external_ids().contains_key(chunk@[n].external_id@)
                } by {
                    assert(chunk@[n] == all[from + n]);
                    if before.live().contains(chunk@[n].id) {
                        assert(ids_from(all, end).contains(chunk@[n].id));
                        let m = choose|m: int|
                            end <= m < all.len() && 0 <= m && (#[trigger] all[m]).id == chunk@[n].id;
                        assert(all[from + n].id != all[m].id);
                    }
                    if before.external_ids().contains_key(chunk@[n].external_id@) {
                        let m = choose|m: int|
                            end <= m < all.len() && 0 <= m && (#[trigger] all[m]).external_id@
                                == chunk@[n].external_id@;
                        assert(all[from + n].external_id@ != all[m].external_id@);
                    }
                }
                assert forall|a: int, b: int| 0 <= a < b < chunk@.len() implies (
                #[trigger] chunk@[a]).id != (#[trigger] chunk@[b]).id && chunk@[a].external_id@
                    != chunk@[b].external_id@ by {
                    assert(chunk@[a] == all[from + a]);
                    assert(chunk@[b] == all[from + b]);
                }
            }
        }
        let written = write_typed_chunk_into_index(TypedChunk::Documents(chunk), index);
        progress(tracker.documents_indexed(bitmap_len(&written.0)));
        proof {
            let all = given.documents@;
            let from = end - size;
            lemma_stored_more(&listed, &before, index, all, chunk@, from, end);
        }
    }
    let ghost filled = *index;
    match primary_key {
        Some(name) => {
            index.put_primary_key(name);
        },
        None => {},
    }
    let ghost merged = *index;
    let chunks = PrefixChunks {
        word_docids,
        exact_word_docids,
        word_pair_proximity_docids,
        word_position_docids,
        word_fid_docids,
    };
    proof {
        assert forall|database: PrefixDatabase| #[trigger]
            is_chunk_of(chunks.chunk_for(database), &cleared, given.documents@, source_of(database)) by {}
    }
    match prefix_stage(config, progress, should_abort, index, &chunks) {
        Ok(()) => {},
        Err(fault) => {
            return Err(fault);
        },
    }
    proof {
        let documents = given.documents@;
        assert(stored(&listed, &filled, documents, 0));
        assert(merged.same_documents(&filled));
        assert(index.same_documents(&merged));
        assert(listed.same_documents(&cleared));
        assert(index.live() =~= old(index).live().difference(replaced).union(
            ids_from(documents, 0),
        ));
        assert(index.soft_deleted() == cleared.soft_deleted());
        assert forall|n: int| 0 <= n < documents.len() implies {
            &&& index.documents()[(#[trigger] documents[n]).id] == documents[n].document@
            &&& index.external_id_of(documents[n].id) == documents[n].external_id@
            &&& index.external_ids().contains_key(documents[n].external_id@)
            &&& index.external_ids()[documents[n].external_id@] == documents[n].id
        } by {
            assert(filled.documents()[documents[n].id] == documents[n].document@);
        }
        assert forall|id: DocumentId|
            old(index).live().contains(id) && !replaced.contains(id) implies #[trigger]
            index.documents()[id] == old(index).documents()[id] && index.external_id_of(id) == old(
            index,
        ).external_id_of(id) by {
            assert(cleared.live().contains(id));
            assert(listed.live().contains(id));
            assert(filled.documents()[id] == listed.documents()[id]);
            assert(cleared.documents()[id] == old(index).documents()[id]);
            assert(cleared.external_id_of(id) == old(index).external_id_of(id));
        }
        assert forall|name: Seq<u8>|
            old(index).external_ids().contains_key(name) && !replaced.contains(
                old(index).external_ids()[name],
            ) implies #[trigger] index.external_ids()[name] == old(index).external_ids()[name] by {
            assert(cleared.external_ids().contains_key(name));
            assert(listed.external_ids().contains_key(name));
            assert(filled.external_ids()[name] == listed.external_ids()[name]);
        }
        assert forall|name: Seq<u8>| #[trigger]
            index.external_ids().contains_key(name) <==> (old(index).external_ids().contains_key(
                name,
            ) && !replaced.contains(old(index).external_ids()[name])) || (exists|n: int|
                0 <= n < documents.len() && (#[trigger] documents[n]).external_id@ == name) by {
            if exists|n: int| 0 <= n < documents.len()
                && (#[trigger] documents[n]).external_id@ == name {
                let n = choose|n: int|
                    0 <= n < documents.len() && (#[trigger] documents[n]).external_id@ == name;
                assert(0 <= n < documents.len() && 0 <= n && documents[n].external_id@ == name);
            }
        }
        let before = *old(index);
        let after = *index;
        assert(after.live() == before.live().difference(replaced).union(ids_from(documents, 0)));
        assert(after.soft_deleted() == if strategy == DeletionStrategy::AlwaysHard {
            before.soft_deleted().difference(replaced)
        } else {
            before.soft_deleted().union(replaced)
        });
        assert(forall|n: int|
            0 <= n < documents.len() ==> {
                &&& after.documents()[(#[trigger] documents[n]).id] == documents[n].document@
                &&& after.external_id_of(documents[n].id) == documents[n].external_id@
                &&& after.external_ids().contains_key(documents[n].external_id@)
                &&& after.external_ids()[documents[n].external_id@] == documents[n].id
            });
        assert(forall|id: DocumentId|
            before.live().contains(id) && !replaced.contains(id) ==> #[trigger] after.documents()[id]
                == before.documents()[id] && after.external_id_of(id) == before.external_id_of(id));
        assert(forall|name: Seq<u8>| #[trigger]
            after.external_ids().contains_key(name) <==> (before.external_ids().contains_key(name)
                && !replaced.contains(before.external_ids()[name])) || (exists|n: int|
                0 <= n < documents.len() && (#[trigger] documents[n]).external_id@ == name));
        assert(forall|name: Seq<u8>|
            before.external_ids().contains_key(name) && !replaced.contains(
                before.external_ids()[name],
            ) ==> #[trigger] after.external_ids()[name] == before.external_ids()[name]);
        lemma_documents_applied(&before, &after, &given, strategy);
        assert forall|database: Database, key: Seq<u8>| #[trigger]
            index.postings(database).docids(key) == kept_docids(
                old(index).postings(database).docids(key),
                replaced,
                strategy,
            ).union(
                new_docids(
                    &old(index).settings(),
                    given.fields_ids_map@,
                    documents,
                    database,
                    key,
                ),
            ) by {
            assert(index.postings(database) == merged.postings(database));
            assert(merged.postings(database) == listed.postings(database));
            assert(database_position(database) < POSTING_DATABASE_COUNT);
        }
        assert(postings_applied(old(index), index, &given, strategy));
        assert forall|database: PrefixDatabase, key: Seq<u8>| #[trigger]
            index.prefix_postings(database).docids(key) == match key_word(
                shape_of(database),
                key,
            ) {
                Some(prefix) => prefix_docids_after(
                    old(index).prefixes(),
                    index.prefixes(),
                    kept_docids(
                        old(index).prefix_postings(database).docids(key),
                        replaced,
                        strategy,
                    ),
                    prefix_docids_of(
                        shape_of(database),
                        &index.postings(source_of(database)),
                        key,
                    ),
                    new_prefix_docids(
                        &old(index).settings(),
                        given.fields_ids_map@,
                        documents,
                        database,
                        key,
                    ),
                    prefix,
                ),
                None => kept_docids(
                    old(index).prefix_postings(database).docids(key),
                    replaced,
                    strategy,
                ),
            } by {
            let chunk = chunks.chunk_for(database).unwrap();
            assert(is_chunk_of(Some(chunk), &cleared, documents, source_of(database)));
            assert(prefix_database_updated(&merged, index, database, Some(chunk)));
            assert forall|id: DocumentId|
                prefix_docids_of(shape_of(database), &chunk, key).contains(id)
                    == new_prefix_docids(
                    &old(index).settings(),
                    given.fields_ids_map@,
                    documents,
                    database,
                    key,
                ).contains(id) by {
                if prefix_docids_of(shape_of(database), &chunk, key).contains(id) {
                    let source_key = choose|source_key: Seq<u8>|
                        lists_under(shape_of(database), source_key, key) && #[trigger] chunk.docids(
                            source_key,
                        ).contains(id);
                    assert(new_docids(
                        &old(index).settings(),
                        given.fields_ids_map@,
                        documents,
                        source_of(database),
                        source_key,
                    ).contains(id));
                }
                if new_prefix_docids(
                    &old(index).settings(),
                    given.fields_ids_map@,
                    documents,
                    database,
                    key,
                ).contains(id) {
                    let source_key = choose|source_key: Seq<u8>|
                        lists_under(shape_of(database), source_key, key) && #[trigger] new_docids(
                            &old(index).settings(),
                            given.fields_ids_map@,
                            documents,
                            source_of(database),
                            source_key,
                        ).contains(id);
                    assert(chunk.docids(source_key).contains(id));
                }
            }
            assert(prefix_docids_of(shape_of(database), &chunk, key) =~= new_prefix_docids(
                &old(index).settings(),
                given.fields_ids_map@,
                documents,
                database,
                key,
            ));
            assert(merged.prefix_postings(database) == cleared.prefix_postings(database));
            assert(merged.postings(source_of(database)) == index.postings(source_of(database)));
        }
        assert(prefixes_applied(old(index), index, &given, *config));
        assert(index.facet_values() == cleared.facet_values());
        assert(without_documents(old(index).facet_values(), Set::<DocumentId>::empty())
            =~= old(index).facet_values());
    }
    Ok(index.number_of_documents())
}

/// `index` is `renewed` with the first `position` prefix databases brought
/// up to date, and the others as they were.
pub open spec fn prefixes_updated_upto(
    before: &Index,
    renewed: &Index,
    index: &Index,
    chunks: &PrefixChunks,
    position: int,
) -> bool {
    &&& index.wf()
    &&& index.same_catalogue(renewed)
    &&& index.same_documents(renewed)
    &&& index.same_postings(renewed)
    &&& index.facet_values() == renewed.facet_values()
    &&& index.prefixes() == renewed.prefixes()
    &&& forall|database: PrefixDatabase|
        prefix_database_position(database) < position ==> #[trigger] prefix_database_updated(
            before,
            index,
            database,
            chunks.chunk_for(database),
        )
    &&& forall|database: PrefixDatabase|
        prefix_database_position(database) >= position ==> #[trigger] index.prefix_postings(
            database,
        ) == renewed.prefix_postings(database)
}

/// The prefix stage of a run: see `IndexDocuments::execute_prefix_databases`.
fn prefix_stage<FP: Fn(UpdateIndexingStep), FA: Fn() -> bool>(
    config: &IndexDocumentsConfig,
    progress: &FP,
    should_abort: &FA,
    index: &mut Index,
    chunks: &PrefixChunks,
) -> (result: Result<(), Error>)
    requires
        call_requires(*should_abort, ()),
        forall|step: UpdateIndexingStep| call_requires(*progress, (step,)),
        old(index).wf(),
        chunks.wf(),
    ensures
        match result {
            Ok(()) => may_continue(should_abort) && prefixes_updated(
                old(index),
                final(index),
                *config,
                chunks,
            ),
            Err(Error::InternalError(InternalError::AbortedIndexation)) => {
                &&& may_abort(should_abort)
                &&& final(index).wf()
                &&& final(index).same_catalogue(old(index))
                &&& final(index).same_documents(old(index))
                &&& final(index).same_postings(old(index))
            },
            Err(_) => false,
        },
        !may_continue(should_abort) ==> result.is_err() && *final(index) == *old(index),
{
    // The merged databases are up to date already: the count starts after them.
    let mut tracker = ProgressTracker::new(MERGED_DATABASE_COUNT, 0);
    if should_abort() {
        return Err(Error::InternalError(InternalError::AbortedIndexation));
    }
    let threshold = match config.words_prefix_threshold {
        Some(value) => value,
        None => DEFAULT_WORDS_PREFIX_THRESHOLD,
    };
    let max_prefix_length = match config.max_prefix_length {
        Some(value) => value,
        None => DEFAULT_MAX_PREFIX_LENGTH,
    };
    // The frequent prefixes of the words as they are now.
    let current = compute_prefixes(
        index.database(Database::WordDocids),
        threshold,
        max_prefix_length,
    );
    // The prefixes that were frequent before and still are.
    let common = select_prefixes(index.words_prefixes(), &current, true);
    // The prefixes that have become frequent.
    let added = select_prefixes(&current, index.words_prefixes(), false);
    // The prefixes that are no longer frequent.
    let del_prefix_fst_words = select_prefixes(index.words_prefixes(), &current, false);
    proof {
        assert forall|i: int| 0 <= i < common@.len() implies (#[trigger] common@[i])@.len()
            > 0 by {
            assert(crate::settings::names_contain(common@, common@[i]@));
        }
        assert forall|i: int| 0 <= i < added@.len() implies (#[trigger] added@[i])@.len() > 0 by {
            assert(crate::settings::names_contain(added@, added@[i]@));
        }
    }
    let common_prefix_fst_words = group_prefixes(&common);
    let new_prefix_fst_words = group_prefixes(&added);
    let ghost earlier = index.prefixes();
    let ghost current_prefixes = current@.dom();
    index.put_words_prefixes(current);
    let ghost renewed = *index;
    let mut position: usize = 0;
    while position < PREFIX_DATABASE_COUNT
        invariant
            position <= PREFIX_DATABASE_COUNT,
            may_continue(should_abort),
            call_requires(*should_abort, ()),
            forall|step: UpdateIndexingStep| call_requires(*progress, (step,)),
            tracker.databases_seen() == MERGED_DATABASE_COUNT + position,
            chunks.wf(),
            old(index).wf(),
            renewed.wf(),
            renewed.same_catalogue(old(index)),
            renewed.same_documents(old(index)),
            renewed.same_postings(old(index)),
            renewed.prefixes() == current_prefixes,
            old(index).prefixes() == earlier,
            forall|database: PrefixDatabase| #[trigger]
                renewed.prefix_postings(database) == old(index).prefix_postings(database),
            crate::prefix::grouped_by_first_byte(common_prefix_fst_words@),
            crate::prefix::grouped_by_first_byte(new_prefix_fst_words@),
            forall|prefix: Seq<u8>| #[trigger]
                crate::prefix::in_groups(common_prefix_fst_words@, prefix) <==> earlier.contains(
                    prefix,
                ) && current_prefixes.contains(prefix),
            forall|prefix: Seq<u8>| #[trigger]
                crate::prefix::in_groups(new_prefix_fst_words@, prefix) <==> !earlier.contains(
                    prefix,
                ) && current_prefixes.contains(prefix),
            forall|prefix: Seq<u8>| #[trigger]
                crate::settings::names_contain(del_prefix_fst_words@, prefix) <==> earlier.contains(
                    prefix,
                ) && !current_prefixes.contains(prefix),
            prefixes_updated_upto(old(index), &renewed, index, chunks, position as int),
        decreases PREFIX_DATABASE_COUNT - position,
    {
        if should_abort() {
            return Err(Error::InternalError(InternalError::AbortedIndexation));
        }
        let database = prefix_database_at(position);
        let ghost before = *index;
        match chunks.get(database) {
            Some(chunk) => {
                execute_word_prefix_docids(
                    index,
                    database,
                    chunk,
                    &new_prefix_fst_words,
                    &common_prefix_fst_words,
                    &del_prefix_fst_words,
                );
            },
            None => {},
        }
        progress(tracker.database_merged());
        proof {
            assert forall|other: PrefixDatabase|
                prefix_database_position(other) < position
                    + 1 implies #[trigger] prefix_database_updated(
                old(index),
                index,
                other,
                chunks.chunk_for(other),
            ) by {
                if other == database {
                    assert(before.prefix_postings(other) == old(index).prefix_postings(other));
                    assert(before.postings(source_of(other)) == old(index).postings(
                        source_of(other),
                    ));
                } else {
                    assert(prefix_database_position(other) < position);
                    assert(index.prefix_postings(other) == before.prefix_postings(other));
                    assert(prefix_database_updated(
                        old(index),
                        &before,
                        other,
                        chunks.chunk_for(other),
                    ));
                }
            }
            assert forall|other: PrefixDatabase|
                prefix_database_position(other) >= position + 1 implies #[trigger]
                index.prefix_postings(other) == renewed.prefix_postings(other) by {
                assert(other != database);
                assert(index.prefix_postings(other) == before.prefix_postings(other));
            }
        }
        position += 1;
    }
    proof {
        assert forall|database: PrefixDatabase| #[trigger]
            prefix_database_updated(old(index), index, database, chunks.chunk_for(database)) by {
            assert(prefix_database_position(database) < PREFIX_DATABASE_COUNT);
        }
    }
    Ok(())
}

/// Brings one prefix database up to date with the chunk of its source.
fn execute_word_prefix_docids(
    index: &mut Index,
    database: PrefixDatabase,
    chunk: &Postings,
    new_prefix_fst_words: &Vec<&[Vec<u8>]>,
    common_prefix_fst_words: &Vec<&[Vec<u8>]>,
    del_prefix_fst_words: &Vec<Vec<u8>>,
)
    requires
        old(index).wf(),
        chunk.wf(),
        crate::prefix::grouped_by_first_byte(new_prefix_fst_words@),
        crate::prefix::grouped_by_first_byte(common_prefix_fst_words@),
    ensures
        final(index).wf(),
        forall|key: Seq<u8>| #[trigger]
            final(index).prefix_postings(database).docids(key) == updated_docids(
                shape_of(database),
                old(index).prefix_postings(database).docids(key),
                &old(index).postings(source_of(database)),
                chunk,
                new_prefix_fst_words@,
                common_prefix_fst_words@,
                del_prefix_fst_words@,
                key,
            ),
        forall|other: PrefixDatabase|
            other != database ==> #[trigger] final(index).prefix_postings(other) == old(
                index,
            ).prefix_postings(other),
        final(index).prefixes() == old(index).prefixes(),
        final(index).facet_values() == old(index).facet_values(),
        final(index).same_catalogue(old(index)),
        final(index).same_documents(old(index)),
        final(index).same_postings(old(index)),
{
    index.update_prefix_database(
        database,
        chunk,
        new_prefix_fst_words,
        common_prefix_fst_words,
        del_prefix_fst_words,
    );
}

} // verus!
