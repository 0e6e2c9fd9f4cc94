use std::cell::RefCell;

use docindex::enrich::{RawDocument, RawField};
use docindex::error::{Error, InternalError, UserError};
use docindex::documents::Document;
use docindex::extract::{Database, StoredDocument};
use docindex::index::{DeletionStrategy, Index, PrefixDatabase};
use docindex::index_documents::{
    chunk_ranges, extract_database, merge_received, DocumentAdditionResult, IndexDocuments,
    IndexDocumentsConfig, IndexDocumentsMethod, IndexerConfig, ProgressTracker,
    UpdateIndexingStep,
};
use docindex::transform::Transform;
use docindex::postings::Postings;
use docindex::typed_chunk::TypedChunk;
use docindex::settings::Settings;

fn document(fields: &[(&str, &str)]) -> RawDocument {
    RawDocument {
        fields: fields
            .iter()
            .map(|(name, value)| RawField {
                name: name.as_bytes().to_vec(),
                value: value.as_bytes().to_vec(),
            })
            .collect(),
        fallback_id: None,
    }
}

fn run(
    index: &mut Index,
    config: &IndexDocumentsConfig,
    batch: Vec<RawDocument>,
) -> Result<DocumentAdditionResult, Error> {
    let builder =
        IndexDocuments::new(index, IndexerConfig::default(), config.clone(), |_| (), || false)
            .unwrap();
    let (builder, outcome) = builder.add_documents(index, &batch)?;
    outcome.map_err(Error::UserError)?;
    builder.execute(index)
}

fn fields_of(index: &Index, name: &str) -> Vec<(String, String)> {
    let id = index.internal_id(name.as_bytes()).unwrap();
    let stored = index.document(id).unwrap();
    (0..stored.len())
        .map(|i| {
            let field = index.fields_ids_map().name(stored.field_id_at(i)).unwrap().clone();
            (String::from_utf8(field).unwrap(), String::from_utf8(stored.value_at(i).clone()).unwrap())
        })
        .collect()
}

fn docids(index: &Index, database: Database, key: &[u8]) -> Option<Vec<u32>> {
    index.database(database).get(key).map(|docids| docids.iter().collect())
}

fn prefix_docids(index: &Index, database: PrefixDatabase, key: &[u8]) -> Option<Vec<u32>> {
    index.prefix_database(database).get(key).map(|docids| docids.iter().collect())
}

fn pairs(fields: &[(&str, &str)]) -> Vec<(String, String)> {
    fields.iter().map(|(name, value)| (name.to_string(), value.to_string())).collect()
}

#[test]
fn replacement_drops_the_fields_of_the_earlier_version() {
    let mut index = Index::new(Settings::new());
    let config = IndexDocumentsConfig::default();
    run(
        &mut index,
        &config,
        vec![
            document(&[("id", "1"), ("name", "\"kevin\""), ("age", "31")]),
            document(&[("id", "2"), ("name", "\"kevina\"")]),
        ],
    )
    .unwrap();

    let addition =
        run(&mut index, &config, vec![document(&[("id", "1"), ("city", "\"Paris\"")])]).unwrap();

    assert_eq!(addition, DocumentAdditionResult { indexed_documents: 1, number_of_documents: 2 });
    assert_eq!(fields_of(&index, "1"), pairs(&[("id", "1"), ("city", "\"Paris\"")]));
    assert_eq!(fields_of(&index, "2"), pairs(&[("id", "2"), ("name", "\"kevina\"")]));
}

#[test]
fn update_keeps_the_fields_that_the_new_version_does_not_set() {
    let mut index = Index::new(Settings::new());
    let mut config = IndexDocumentsConfig::default();
    config.update_method = IndexDocumentsMethod::UpdateDocuments;
    run(
        &mut index,
        &config,
        vec![document(&[("id", "1"), ("name", "\"kevin\""), ("age", "31")])],
    )
    .unwrap();

    let addition = run(
        &mut index,
        &config,
        vec![document(&[("id", "1"), ("age", "32"), ("city", "\"Paris\"")])],
    )
    .unwrap();

    assert_eq!(addition, DocumentAdditionResult { indexed_documents: 1, number_of_documents: 1 });
    assert_eq!(
        fields_of(&index, "1"),
        pairs(&[("id", "1"), ("name", "\"kevin\""), ("age", "32"), ("city", "\"Paris\"")])
    );
}

#[test]
fn under_update_the_last_of_three_documents_of_one_identifier_wins() {
    let mut index = Index::new(Settings::new());
    let mut config = IndexDocumentsConfig::default();
    config.update_method = IndexDocumentsMethod::UpdateDocuments;

    let addition = run(
        &mut index,
        &config,
        vec![
            document(&[("id", "1"), ("name", "\"kevin\"")]),
            document(&[("id", "1"), ("name", "\"kevina\"")]),
            document(&[("id", "1"), ("name", "\"benoit\"")]),
        ],
    )
    .unwrap();

    assert_eq!(addition, DocumentAdditionResult { indexed_documents: 3, number_of_documents: 1 });
    assert_eq!(fields_of(&index, "1"), pairs(&[("id", "1"), ("name", "\"benoit\"")]));
}

#[test]
fn an_empty_batch_changes_nothing() {
    let mut index = Index::new(Settings::new());
    let config = IndexDocumentsConfig::default();
    run(&mut index, &config, vec![document(&[("id", "1"), ("name", "\"kevin\"")])]).unwrap();

    let catalogue: Vec<Vec<u8>> =
        (0..index.fields_ids_map().len() as u16)
            .map(|id| index.fields_ids_map().name(id).unwrap().clone())
            .collect();
    let words = index.database(Database::WordDocids).len();

    let addition = run(&mut index, &config, vec![]).unwrap();

    assert_eq!(addition, DocumentAdditionResult { indexed_documents: 0, number_of_documents: 1 });
    let after: Vec<Vec<u8>> =
        (0..index.fields_ids_map().len() as u16)
            .map(|id| index.fields_ids_map().name(id).unwrap().clone())
            .collect();
    assert_eq!(after, catalogue);
    assert_eq!(index.database(Database::WordDocids).len(), words);
    assert_eq!(docids(&index, Database::WordDocids, b"kevin"), Some(vec![0]));
}

#[test]
fn a_word_is_listed_until_its_document_is_deleted_hard() {
    let mut index = Index::new(Settings::new());
    let config = IndexDocumentsConfig::default();
    run(
        &mut index,
        &config,
        vec![
            document(&[("id", "1"), ("name", "\"kevin the first\"")]),
            document(&[("id", "2"), ("name", "\"kevin\"")]),
        ],
    )
    .unwrap();

    assert_eq!(docids(&index, Database::WordDocids, b"kevin"), Some(vec![0, 1]));
    assert_eq!(docids(&index, Database::WordDocids, b"first"), Some(vec![0]));

    let mut ids = roaring::RoaringBitmap::new();
    ids.insert(index.internal_id(b"1").unwrap());
    let deleted = index.delete_documents(&ids, DeletionStrategy::AlwaysHard);

    assert_eq!(deleted, 1);
    assert_eq!(index.number_of_documents(), 1);
    assert_eq!(docids(&index, Database::WordDocids, b"kevin"), Some(vec![1]));
    // No other document holds the word: its key has left the database.
    assert_eq!(docids(&index, Database::WordDocids, b"first"), None);
    assert_eq!(index.internal_id(b"1"), None);
}

#[test]
fn a_soft_deletion_keeps_the_postings_and_marks_the_document() {
    let mut index = Index::new(Settings::new());
    let config = IndexDocumentsConfig::default();
    run(&mut index, &config, vec![document(&[("id", "1"), ("name", "\"kevin\"")])]).unwrap();

    let mut ids = roaring::RoaringBitmap::new();
    ids.insert(0);
    ids.insert(7);
    let deleted = index.delete_documents(&ids, DeletionStrategy::AlwaysSoft);

    assert_eq!(deleted, 1);
    assert_eq!(index.number_of_documents(), 0);
    assert_eq!(index.soft_deleted_documents_ids().iter().collect::<Vec<u32>>(), vec![0]);
    assert_eq!(docids(&index, Database::WordDocids, b"kevin"), Some(vec![0]));

    // The id of a document that was deleted softly is not given out again.
    run(&mut index, &config, vec![document(&[("id", "2"), ("name", "\"kevina\"")])]).unwrap();
    assert_eq!(index.internal_id(b"2"), Some(1));
}

#[test]
fn a_prefix_that_becomes_frequent_lists_the_documents_of_all_its_words() {
    let mut index = Index::new(Settings::new());
    let mut config = IndexDocumentsConfig::default();
    config.words_prefix_threshold = Some(3);
    config.max_prefix_length = Some(2);

    run(
        &mut index,
        &config,
        vec![
            document(&[("id", "1"), ("name", "\"kevin\"")]),
            document(&[("id", "2"), ("name", "\"kevina\"")]),
        ],
    )
    .unwrap();
    // Two documents hold a word in `k`: the prefix is not frequent yet.
    assert!(!index.words_prefixes().contains_key(b"k"));
    assert_eq!(prefix_docids(&index, PrefixDatabase::WordPrefixDocids, b"k"), None);

    run(&mut index, &config, vec![document(&[("id", "3"), ("name", "\"kelly benoit\"")])])
        .unwrap();

    assert!(index.words_prefixes().contains_key(b"k"));
    assert!(index.words_prefixes().contains_key(b"ke"));
    assert!(!index.words_prefixes().contains_key(b"kev"));
    assert!(!index.words_prefixes().contains_key(b"b"));
    assert_eq!(prefix_docids(&index, PrefixDatabase::WordPrefixDocids, b"k"), Some(vec![0, 1, 2]));
    assert_eq!(prefix_docids(&index, PrefixDatabase::WordPrefixDocids, b"ke"), Some(vec![0, 1, 2]));

    // A prefix that stays frequent gains the documents of the next run.
    run(&mut index, &config, vec![document(&[("id", "4"), ("name", "\"kermit\"")])]).unwrap();
    assert_eq!(
        prefix_docids(&index, PrefixDatabase::WordPrefixDocids, b"ke"),
        Some(vec![0, 1, 2, 3])
    );
}

#[test]
fn a_prefix_that_is_no_longer_frequent_leaves_its_database() {
    let mut index = Index::new(Settings::new());
    let mut config = IndexDocumentsConfig::default();
    config.words_prefix_threshold = Some(2);
    config.max_prefix_length = Some(1);
    config.deletion_strategy = DeletionStrategy::AlwaysHard;

    run(
        &mut index,
        &config,
        vec![
            document(&[("id", "1"), ("name", "\"kevin\"")]),
            document(&[("id", "2"), ("name", "\"kelly\"")]),
        ],
    )
    .unwrap();
    assert_eq!(prefix_docids(&index, PrefixDatabase::WordPrefixDocids, b"k"), Some(vec![0, 1]));

    // Both documents are replaced by documents without a word in `k`.
    run(
        &mut index,
        &config,
        vec![
            document(&[("id", "1"), ("name", "\"benoit\"")]),
            document(&[("id", "2"), ("name", "\"bob\"")]),
        ],
    )
    .unwrap();

    assert!(!index.words_prefixes().contains_key(b"k"));
    assert_eq!(prefix_docids(&index, PrefixDatabase::WordPrefixDocids, b"k"), None);
    assert!(index.words_prefixes().contains_key(b"b"));
    assert_eq!(index.number_of_documents(), 2);
}

#[test]
fn an_aborted_run_writes_nothing() {
    let mut index = Index::new(Settings::new());
    let config = IndexDocumentsConfig::default();
    run(&mut index, &config, vec![document(&[("id", "1"), ("name", "\"kevin\"")])]).unwrap();

    // The caller lets the batch be read and asks for a stop afterwards.
    let polls = RefCell::new(0);
    let builder = IndexDocuments::new(&index, IndexerConfig::default(), config.clone(), |_| (), || {
        *polls.borrow_mut() += 1;
        *polls.borrow() > 1
    })
    .unwrap();
    let batch = vec![document(&[("id", "2"), ("name", "\"benoit\"")])];
    let (builder, outcome) = builder.add_documents(&index, &batch).unwrap();
    assert_eq!(outcome, Ok(1));

    let result = builder.execute(&mut index);

    assert_eq!(result, Err(Error::InternalError(InternalError::AbortedIndexation)));
    assert_eq!(index.number_of_documents(), 1);
    assert_eq!(index.fields_ids_map().len(), 2);
    assert_eq!(index.internal_id(b"2"), None);
    assert_eq!(docids(&index, Database::WordDocids, b"benoit"), None);
    assert_eq!(docids(&index, Database::WordDocids, b"kevin"), Some(vec![0]));
}

#[test]
fn a_stop_while_a_batch_is_read_ends_the_run() {
    let index = Index::new(Settings::new());
    let builder = IndexDocuments::new(
        &index,
        IndexerConfig::default(),
        IndexDocumentsConfig::default(),
        |_| (),
        || true,
    )
    .unwrap();
    let batch = vec![document(&[("id", "2"), ("name", "\"benoit\"")])];

    let result = builder.add_documents(&index, &batch);

    assert!(matches!(result, Err(Error::InternalError(InternalError::AbortedIndexation))));
}

#[test]
fn progress_counts_up_to_the_number_of_databases() {
    let mut index = Index::new(Settings::new());
    let events: RefCell<Vec<UpdateIndexingStep>> = RefCell::new(Vec::new());
    let mut indexer_config = IndexerConfig::default();
    indexer_config.documents_chunk_size = Some(2);
    let builder = IndexDocuments::new(
        &index,
        indexer_config,
        IndexDocumentsConfig::default(),
        |step| events.borrow_mut().push(step),
        || false,
    )
    .unwrap();
    let batch = vec![
        document(&[("id", "1"), ("name", "\"kevin\"")]),
        document(&[("id", "2"), ("name", "\"kevina\"")]),
        document(&[("id", "3"), ("name", "\"benoit\"")]),
    ];
    let (builder, _) = builder.add_documents(&index, &batch).unwrap();
    builder.execute(&mut index).unwrap();

    let events = events.into_inner();
    let databases: Vec<usize> = events
        .iter()
        .filter_map(|step| match step {
            UpdateIndexingStep::MergeDataIntoFinalDatabase { databases_seen, total_databases } => {
                assert_eq!(*total_databases, 12);
                Some(*databases_seen)
            }
            _ => None,
        })
        .collect();
    assert_eq!(databases, (0..=12).collect::<Vec<usize>>());
    let documents: Vec<(usize, usize)> = events
        .iter()
        .filter_map(|step| match step {
            UpdateIndexingStep::IndexDocuments { documents_seen, total_documents } => {
                Some((*documents_seen, *total_documents))
            }
            _ => None,
        })
        .collect();
    assert_eq!(documents, vec![(2, 3), (3, 3)]);
}

#[test]
fn a_document_without_identifier_is_a_fault_of_the_batch() {
    let mut index = Index::new(Settings::new());
    let config = IndexDocumentsConfig::default();

    let result = run(
        &mut index,
        &config,
        vec![document(&[("id", "1")]), document(&[("name", "\"kevin\"")])],
    );

    assert_eq!(result, Err(Error::UserError(UserError::MissingDocumentId { position: 1 })));
    assert_eq!(index.number_of_documents(), 0);
}

#[test]
fn a_float_is_no_identifier() {
    let mut index = Index::new(Settings::new());
    let config = IndexDocumentsConfig::default();

    let result = run(&mut index, &config, vec![document(&[("id", "2.5")])]);

    assert_eq!(
        result,
        Err(Error::UserError(UserError::InvalidDocumentId { value: b"2.5".to_vec() }))
    );
}

#[test]
fn the_catalogue_has_room_for_65536_fields_and_no_more() {
    let mut index = Index::new(Settings::new());
    let mut settings_free = IndexDocumentsConfig::default();
    settings_free.words_prefix_threshold = Some(u32::MAX);

    let names: Vec<String> = (0..65535).map(|i| format!("f{i}")).collect();
    let mut fields: Vec<(&str, &str)> = vec![("id", "1")];
    fields.extend(names.iter().map(|name| (name.as_str(), "0")));
    let full = vec![document(&fields)];

    let builder = IndexDocuments::new(
        &index,
        IndexerConfig::default(),
        settings_free.clone(),
        |_| (),
        || false,
    )
    .unwrap();
    let (builder, outcome) = builder.add_documents(&index, &full).unwrap();
    assert_eq!(outcome, Ok(1));

    // One more field is one too many, and the run is over.
    let more = vec![document(&[("id", "2"), ("one_more", "0")])];
    let result = builder.add_documents(&index, &more);
    assert!(matches!(result, Err(Error::UserError(UserError::AttributeLimitReached))));

    // The index itself has not been touched.
    assert_eq!(index.fields_ids_map().len(), 0);
    let _ = &mut index;
}

#[test]
fn every_prefix_database_follows_its_source() {
    let mut index = Index::new(Settings::new());
    let mut config = IndexDocumentsConfig::default();
    config.words_prefix_threshold = Some(2);
    config.max_prefix_length = Some(2);

    run(
        &mut index,
        &config,
        vec![
            document(&[("id", "1"), ("name", "\"big sun\"")]),
            document(&[("id", "2"), ("name", "\"big summer\"")]),
            document(&[("id", "3"), ("title", "\"sunday\"")]),
        ],
    )
    .unwrap();

    // `s`, `su` and `b`, `bi` are frequent: two documents or more hold a word in them.
    let prefixes = index.words_prefixes();
    let found: Vec<Vec<u8>> = (0..prefixes.len()).map(|i| prefixes.key_at(i).clone()).collect();
    assert_eq!(found, vec![b"b".to_vec(), b"bi".to_vec(), b"s".to_vec(), b"su".to_vec()]);

    assert_eq!(
        prefix_docids(&index, PrefixDatabase::WordPrefixDocids, b"su"),
        Some(vec![0, 1, 2])
    );
    assert_eq!(prefix_docids(&index, PrefixDatabase::ExactWordPrefixDocids, b"su"), None);
    // The fields are `id`, `name` and `title`, in this order.
    assert_eq!(
        prefix_docids(&index, PrefixDatabase::WordPrefixFidDocids, b"su\x00\x00\x01"),
        Some(vec![0, 1])
    );
    assert_eq!(
        prefix_docids(&index, PrefixDatabase::WordPrefixFidDocids, b"su\x00\x00\x02"),
        Some(vec![2])
    );
    // `sun` and `summer` stand at the second position of their field, `sunday` at the first.
    assert_eq!(
        prefix_docids(&index, PrefixDatabase::WordPrefixPositionDocids, b"s\x00\x00\x01"),
        Some(vec![0, 1])
    );
    assert_eq!(
        prefix_docids(&index, PrefixDatabase::WordPrefixPositionDocids, b"s\x00\x00\x00"),
        Some(vec![2])
    );
    // The pair of `big` and a word in `su`, one position apart.
    assert_eq!(
        prefix_docids(&index, PrefixDatabase::WordPrefixPairProximityDocids, b"\x01big\x00su"),
        Some(vec![0, 1])
    );
    assert_eq!(
        prefix_docids(&index, PrefixDatabase::WordPrefixPairProximityDocids, b"\x01big\x00sun"),
        None
    );
    assert_eq!(
        docids(&index, Database::WordPairProximityDocids, b"\x01big\x00sun"),
        Some(vec![0])
    );
}

#[test]
fn the_distribution_counts_the_documents_of_each_field() {
    let mut index = Index::new(Settings::new());
    let config = IndexDocumentsConfig::default();
    assert_eq!(docindex::distribution::field_distribution(&index), Vec::<u64>::new());
    run(
        &mut index,
        &config,
        vec![
            document(&[("id", "1"), ("name", "\"kevin\""), ("age", "31")]),
            document(&[("id", "2"), ("name", "\"kevina\"")]),
            document(&[("id", "3"), ("city", "\"Paris\"")]),
        ],
    )
    .unwrap();
    let names: Vec<String> = (0..index.fields_ids_map().len())
        .map(|id| String::from_utf8(index.fields_ids_map().name(id as u16).unwrap().clone()).unwrap())
        .collect();
    assert_eq!(names, vec!["id", "name", "age", "city"]);
    assert_eq!(docindex::distribution::field_distribution(&index), vec![3, 2, 1, 1]);

    run(&mut index, &config, vec![document(&[("id", "1"), ("city", "\"Lyon\"")])]).unwrap();
    assert_eq!(docindex::distribution::field_distribution(&index), vec![3, 1, 0, 2]);

    let mut gone = roaring::RoaringBitmap::new();
    gone.insert(index.internal_id(b"3").unwrap());
    assert_eq!(index.delete_documents(&gone, DeletionStrategy::AlwaysHard), 1);
    assert_eq!(docindex::distribution::field_distribution(&index), vec![2, 1, 0, 1]);
}

#[test]
fn an_output_foretells_the_distribution_of_the_index() {
    let mut index = Index::new(Settings::new());
    let mut config = IndexDocumentsConfig::default();
    config.update_method = IndexDocumentsMethod::UpdateDocuments;
    run(
        &mut index,
        &config,
        vec![
            document(&[("id", "1"), ("name", "\"kevin\""), ("age", "31")]),
            document(&[("id", "2"), ("name", "\"kevina\"")]),
        ],
    )
    .unwrap();

    let mut transform =
        docindex::transform::Transform::new(&index, IndexDocumentsMethod::UpdateDocuments);
    let batch = vec![
        document(&[("id", "2"), ("city", "\"Paris\"")]),
        document(&[("id", "7"), ("age", "4"), ("colour", "\"red\"")]),
    ];
    for (name, raw) in ["2", "7"].iter().zip(batch) {
        let enriched = docindex::enrich::EnrichedDocument {
            external_id: name.as_bytes().to_vec(),
            fields: raw.fields,
        };
        transform.add_document(&index, &enriched).unwrap();
    }
    let output = transform.output_from_sorter(&index, None, 2);
    let foretold = output.field_distribution(&index);
    assert_eq!(foretold, vec![3, 2, 2, 1, 1]);
    assert_eq!(docindex::distribution::field_distribution(&index), vec![2, 2, 1]);

    let pipeline =
        IndexDocuments::new(&index, IndexerConfig::default(), config.clone(), |_| (), || false)
            .unwrap();
    assert_eq!(pipeline.execute_raw(&mut index, output), Ok(3));
    assert_eq!(docindex::distribution::field_distribution(&index), foretold);
}

#[test]
fn a_received_chunk_is_merged_and_counted() {
    let mut index = Index::new(Settings::new());
    let events: RefCell<Vec<UpdateIndexingStep>> = RefCell::new(Vec::new());
    let progress = |step: UpdateIndexingStep| events.borrow_mut().push(step);
    let mut tracker = ProgressTracker::new(0, 2);

    let mut chunk = Postings::new();
    chunk.add_document(b"sun", 1);
    chunk.add_document(b"air", 0);
    let received = Ok(TypedChunk::from_postings(Database::WordDocids, chunk));
    assert_eq!(merge_received(&mut index, &mut tracker, received, &progress, &|| false), Ok(()));
    assert_eq!(docids(&index, Database::WordDocids, b"sun"), Some(vec![1]));
    assert_eq!(docids(&index, Database::WordDocids, b"air"), Some(vec![0]));

    let mut chunk = Postings::new();
    chunk.add_document(b"sun", 0);
    let received = Ok(TypedChunk::WordDocids(chunk));
    assert_eq!(merge_received(&mut index, &mut tracker, received, &progress, &|| false), Ok(()));
    assert_eq!(docids(&index, Database::WordDocids, b"sun"), Some(vec![0, 1]));

    let mut first = Document::new();
    first.insert(0, b"1".to_vec());
    let mut second = Document::new();
    second.insert(0, b"2".to_vec());
    let documents = vec![
        StoredDocument { id: 0, external_id: b"1".to_vec(), document: first },
        StoredDocument { id: 1, external_id: b"2".to_vec(), document: second },
    ];
    let received = Ok(TypedChunk::Documents(documents));
    assert_eq!(merge_received(&mut index, &mut tracker, received, &progress, &|| false), Ok(()));
    assert_eq!(index.number_of_documents(), 2);
    assert_eq!(index.internal_id(b"2"), Some(1));

    assert_eq!(
        events.into_inner(),
        vec![
            UpdateIndexingStep::MergeDataIntoFinalDatabase { databases_seen: 1, total_databases: 12 },
            UpdateIndexingStep::MergeDataIntoFinalDatabase { databases_seen: 2, total_databases: 12 },
            UpdateIndexingStep::IndexDocuments { documents_seen: 2, total_documents: 2 },
        ]
    );
}

#[test]
fn a_fault_or_a_stop_leaves_the_index_as_it_is() {
    let mut index = Index::new(Settings::new());
    let events: RefCell<Vec<UpdateIndexingStep>> = RefCell::new(Vec::new());
    let progress = |step: UpdateIndexingStep| events.borrow_mut().push(step);
    let mut tracker = ProgressTracker::new(0, 0);

    let fault = Error::UserError(UserError::AttributeLimitReached);
    assert_eq!(
        merge_received(&mut index, &mut tracker, Err(fault.clone()), &progress, &|| false),
        Err(fault.clone())
    );
    assert_eq!(
        merge_received(&mut index, &mut tracker, Err(fault), &progress, &|| true),
        Err(Error::InternalError(InternalError::AbortedIndexation))
    );

    let mut chunk = Postings::new();
    chunk.add_document(b"sun", 1);
    let received = Ok(TypedChunk::WordDocids(chunk));
    assert_eq!(
        merge_received(&mut index, &mut tracker, received, &progress, &|| true),
        Err(Error::InternalError(InternalError::AbortedIndexation))
    );
    assert_eq!(docids(&index, Database::WordDocids, b"sun"), None);
    assert!(events.into_inner().is_empty());
}

#[test]
fn nothing_is_asked_where_there_is_nothing_to_read() {
    let index = Index::new(Settings::new());
    let asked = RefCell::new(0);
    let builder = IndexDocuments::new(
        &index,
        IndexerConfig::default(),
        IndexDocumentsConfig::default(),
        |_| (),
        || {
            *asked.borrow_mut() += 1;
            true
        },
    )
    .unwrap();

    let (builder, added) = builder.add_documents(&index, &Vec::new()).unwrap();
    assert_eq!(added, Ok(0));
    let (builder, removed) = builder.remove_documents(&index, Vec::new()).unwrap();
    assert_eq!(removed, Ok(0));
    drop(builder);

    let mut transform = Transform::new(&index, IndexDocumentsMethod::ReplaceDocuments);
    assert_eq!(transform.read_documents(&index, &Vec::new(), &|| true), Ok(0));
    assert_eq!(transform.remove_documents(&index, &Vec::new(), &|| true), Ok(0));
    let output = transform.output_from_sorter(&index, None, 0);
    assert!(output.documents.is_empty());

    let fields = docindex::fields::FieldsIdsMap::new();
    let chunk = extract_database(
        Database::WordDocids,
        &Settings::new(),
        &fields,
        &Vec::new(),
        4,
        &|| true,
    )
    .unwrap();
    assert!(chunk.is_empty());
    assert_eq!(*asked.borrow(), 0);
}

#[test]
fn a_fault_of_the_batch_comes_before_the_caller_is_asked() {
    let index = Index::new(Settings::new());
    let config = IndexDocumentsConfig::default();
    let builder =
        IndexDocuments::new(&index, IndexerConfig::default(), config.clone(), |_| (), || true)
            .unwrap();

    let batch = vec![document(&[("title", "\"asdsad\""), ("state", "\"automated\"")])];
    let (builder, outcome) = builder.add_documents(&index, &batch).unwrap();
    assert_eq!(outcome, Err(UserError::NoPrimaryKeyCandidateFound));

    let batch = vec![document(&[
        ("id", "228143"),
        ("title", "\"something\""),
        ("public_uid", "\"39c6499b\""),
        ("project_id", "78207"),
        ("branch_id_number", "0"),
    ])];
    let (builder, outcome) = builder.add_documents(&index, &batch).unwrap();
    assert_eq!(
        outcome,
        Err(UserError::MultiplePrimaryKeyCandidatesFound {
            candidates: vec![b"id".to_vec(), b"project_id".to_vec(), b"public_uid".to_vec()],
        })
    );

    let batch = vec![
        document(&[("id", "1"), ("name", "\"kevin\"")]),
        document(&[("name", "\"benoit\"")]),
    ];
    let (builder, outcome) = builder.add_documents(&index, &batch).unwrap();
    assert_eq!(outcome, Err(UserError::MissingDocumentId { position: 1 }));

    // The batch has no fault: now the caller is asked, and stops the run.
    let batch = vec![document(&[("id", "1"), ("name", "\"kevin\"")])];
    assert!(matches!(
        builder.add_documents(&index, &batch),
        Err(Error::InternalError(InternalError::AbortedIndexation))
    ));
}

#[test]
fn the_prefix_stage_counts_from_eight_to_twelve() {
    let mut index = Index::new(Settings::new());
    let events: RefCell<Vec<UpdateIndexingStep>> = RefCell::new(Vec::new());
    let builder = IndexDocuments::new(
        &index,
        IndexerConfig::default(),
        IndexDocumentsConfig::default(),
        |step| events.borrow_mut().push(step),
        || false,
    )
    .unwrap();

    assert_eq!(builder.execute_prefix_databases(&mut index, None, None, None, None, None), Ok(()));
    assert_eq!(
        events.into_inner(),
        (8..=12)
            .map(|databases_seen| UpdateIndexingStep::MergeDataIntoFinalDatabase {
                databases_seen,
                total_databases: 12,
            })
            .collect::<Vec<_>>()
    );
}

#[test]
fn a_run_that_is_stopped_at_once_touches_nothing() {
    let mut index = Index::new(Settings::new());
    let config = IndexDocumentsConfig::default();
    run(&mut index, &config, vec![document(&[("id", "1"), ("name", "\"kevin\"")])]).unwrap();
    let words = docids(&index, Database::WordDocids, b"kevin");

    let mut transform = Transform::new(&index, IndexDocumentsMethod::ReplaceDocuments);
    let enriched = docindex::enrich::EnrichedDocument {
        external_id: b"2".to_vec(),
        fields: document(&[("id", "2"), ("name", "\"kevina\"")]).fields,
    };
    transform.add_document(&index, &enriched).unwrap();
    let output = transform.output_from_sorter(&index, None, 1);
    let told = RefCell::new(0);
    let pipeline = IndexDocuments::new(
        &index,
        IndexerConfig::default(),
        config,
        |_| *told.borrow_mut() += 1,
        || false,
    )
    .unwrap();
    assert_eq!(
        pipeline.execute_raw_once_asked(&mut index, output, true),
        Err(Error::InternalError(InternalError::AbortedIndexation))
    );
    assert_eq!(index.number_of_documents(), 1);
    assert_eq!(index.internal_id(b"2"), None);
    assert_eq!(docids(&index, Database::WordDocids, b"kevin"), words);
    assert_eq!(docids(&index, Database::WordDocids, b"kevina"), None);
    assert_eq!(index.fields_ids_map().len(), 2);
    assert_eq!(*told.borrow(), 0);
}

#[test]
fn documents_are_cut_into_chunks_of_one_size() {
    assert_eq!(chunk_ranges(0, 4), Vec::<(usize, usize)>::new());
    assert_eq!(chunk_ranges(3, 4), vec![(0, 3)]);
    assert_eq!(chunk_ranges(4, 4), vec![(0, 4)]);
    assert_eq!(chunk_ranges(9, 4), vec![(0, 4), (4, 8), (8, 9)]);
    assert_eq!(chunk_ranges(3, 0), vec![(0, 1), (1, 2), (2, 3)]);
    assert_eq!(chunk_ranges(2, usize::MAX), vec![(0, 2)]);
}
