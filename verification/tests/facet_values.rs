use docindex::documents::Document;
use docindex::enrich::{RawDocument, RawField};
use docindex::error::Error;
use docindex::extract::StoredDocument;
use docindex::facet_values::{decode_docid, encode_docid, extract_facet_values, FacetValues};
use docindex::fields::FieldsIdsMap;
use docindex::index::{DeletionStrategy, Index};
use docindex::index_documents::{
    merge_received, DocumentAdditionResult, IndexDocuments, IndexDocumentsConfig,
    IndexDocumentsMethod, IndexerConfig, ProgressTracker,
};
use docindex::settings::Settings;
use docindex::typed_chunk::{write_typed_chunk_into_index, TypedChunk};
use roaring::RoaringBitmap;

fn document(fields: &[(&str, &str)]) -> RawDocument {
    RawDocument {
        fields: fields
            .iter()
            .map(|(name, value)| RawField {
                name: name.as_bytes().to_vec(),
                value: value.as_bytes().to_vec(),
            })
            .collect(),
        fallback_id: None,
    }
}

fn run(
    index: &mut Index,
    config: &IndexDocumentsConfig,
    batch: Vec<RawDocument>,
) -> Result<DocumentAdditionResult, Error> {
    let builder =
        IndexDocuments::new(index, IndexerConfig::default(), config.clone(), |_| (), || false)
            .unwrap();
    let (builder, outcome) = builder.add_documents(index, &batch)?;
    outcome.map_err(Error::UserError)?;
    builder.execute(index)
}

fn filterable(names: &[&str]) -> Settings {
    let mut settings = Settings::new();
    settings.filterable_fields = names.iter().map(|name| name.as_bytes().to_vec()).collect();
    settings
}

fn key(field: u16, docid: u32, text: &str) -> Vec<u8> {
    let mut key = field.to_be_bytes().to_vec();
    key.extend_from_slice(&docid.to_be_bytes());
    key.extend_from_slice(text.as_bytes());
    key
}

fn entries(values: &FacetValues) -> Vec<(Vec<u8>, String)> {
    (0..values.len())
        .map(|i| (values.key_at(i).clone(), String::from_utf8(values.value_at(i).clone()).unwrap()))
        .collect()
}

#[test]
fn a_document_id_is_written_high_byte_first() {
    assert_eq!(encode_docid(0), vec![0, 0, 0, 0]);
    assert_eq!(encode_docid(258), vec![0, 0, 1, 2]);
    assert_eq!(encode_docid(0x0a0b0c0d), vec![10, 11, 12, 13]);
    assert_eq!(encode_docid(u32::MAX), vec![255, 255, 255, 255]);
    assert_eq!(decode_docid(&key(7, 0x0a0b0c0d, "x")), Some(0x0a0b0c0d));
    assert_eq!(decode_docid(&key(7, u32::MAX, "")), Some(u32::MAX));
    assert_eq!(decode_docid(&[0, 7, 1, 2, 3]), None);
    assert_eq!(decode_docid(&[]), None);
}

#[test]
fn the_strings_of_filterable_fields_are_extracted() {
    let mut fields = FieldsIdsMap::new();
    let title = fields.insert(b"title").unwrap();
    let genre = fields.insert(b"genre").unwrap();
    let year = fields.insert(b"year").unwrap();
    let settings = filterable(&["genre", "year"]);

    let mut first = Document::new();
    first.insert(title, b"\"The Hobbit\"".to_vec());
    first.insert(genre, b"\"Fantasy\"".to_vec());
    first.insert(year, b"1937".to_vec());
    let mut second = Document::new();
    second.insert(genre, b"\"\"".to_vec());
    second.insert(year, b"\"MCMXLIX\"".to_vec());
    let mut third = Document::new();
    third.insert(genre, format!("\"{}\"", "x".repeat(469)).into_bytes());
    let documents = vec![
        StoredDocument { id: 3, external_id: b"a".to_vec(), document: first },
        StoredDocument { id: 260, external_id: b"b".to_vec(), document: second },
        StoredDocument { id: 261, external_id: b"c".to_vec(), document: third },
    ];

    let chunk = extract_facet_values(&settings, &fields, &documents, 0, 3);
    assert_eq!(
        entries(&chunk),
        vec![
            (key(genre, 3, "fantasy"), "Fantasy".to_string()),
            (key(year, 260, "mcmxlix"), "MCMXLIX".to_string()),
        ]
    );
    let chunk = extract_facet_values(&settings, &fields, &documents, 1, 3);
    assert_eq!(entries(&chunk), vec![(key(year, 260, "mcmxlix"), "MCMXLIX".to_string())]);
    assert_eq!(extract_facet_values(&settings, &fields, &documents, 2, 2).len(), 0);
    assert_eq!(extract_facet_values(&Settings::new(), &fields, &documents, 0, 3).len(), 0);
}

#[test]
fn a_written_string_takes_the_place_of_the_one_that_was_there() {
    let mut values = FacetValues::new();
    values.put(key(1, 2, "red"), b"Red".to_vec());
    values.put(key(1, 3, "blue"), b"Blue".to_vec());
    let mut chunk = FacetValues::new();
    chunk.put(key(1, 2, "red"), b"RED".to_vec());
    chunk.put(key(0, 9, "green"), b"Green".to_vec());
    values.write(chunk);
    assert_eq!(
        entries(&values),
        vec![
            (key(0, 9, "green"), "Green".to_string()),
            (key(1, 2, "red"), "RED".to_string()),
            (key(1, 3, "blue"), "Blue".to_string()),
        ]
    );
    assert_eq!(values.get(&key(1, 2, "red")), Some(&b"RED".to_vec()));
    assert_eq!(values.get(&key(1, 2, "re")), None);

    let mut gone = RoaringBitmap::new();
    gone.insert(2);
    gone.insert(9);
    values.remove_documents(&gone);
    assert_eq!(entries(&values), vec![(key(1, 3, "blue"), "Blue".to_string())]);
}

#[test]
fn a_run_writes_the_strings_of_its_documents() {
    let mut index = Index::new(filterable(&["colour"]));
    let config = IndexDocumentsConfig::default();
    run(
        &mut index,
        &config,
        vec![
            document(&[("id", "1"), ("colour", "\"Red\""), ("size", "\"L\"")]),
            document(&[("id", "2"), ("colour", "\"blue\"")]),
            document(&[("id", "3"), ("colour", "7")]),
        ],
    )
    .unwrap();
    assert_eq!(
        entries(index.facet_values_database()),
        vec![(key(1, 0, "red"), "Red".to_string()), (key(1, 1, "blue"), "blue".to_string())]
    );

    // The replaced document is marked as deleted: what it had stays until it is purged.
    run(&mut index, &config, vec![document(&[("id", "1"), ("colour", "\"Green\"")])]).unwrap();
    let renewed = index.internal_id(b"1").unwrap();
    assert_eq!(renewed, 3);
    assert_eq!(
        entries(index.facet_values_database()),
        vec![
            (key(1, 0, "red"), "Red".to_string()),
            (key(1, 1, "blue"), "blue".to_string()),
            (key(1, 3, "green"), "Green".to_string()),
        ]
    );
}

#[test]
fn a_hard_deletion_takes_the_strings_of_the_documents_out() {
    let mut index = Index::new(filterable(&["colour"]));
    let mut config = IndexDocumentsConfig::default();
    config.deletion_strategy = DeletionStrategy::AlwaysHard;
    config.update_method = IndexDocumentsMethod::UpdateDocuments;
    run(
        &mut index,
        &config,
        vec![
            document(&[("id", "1"), ("colour", "\"Red\"")]),
            document(&[("id", "2"), ("colour", "\"blue\"")]),
        ],
    )
    .unwrap();
    run(&mut index, &config, vec![document(&[("id", "1"), ("size", "\"L\"")])]).unwrap();
    let renewed = index.internal_id(b"1").unwrap();
    assert_eq!(
        entries(index.facet_values_database()),
        vec![(key(1, 1, "blue"), "blue".to_string()), (key(1, renewed, "red"), "Red".to_string())]
    );

    let mut gone = RoaringBitmap::new();
    gone.insert(1);
    assert_eq!(index.delete_documents(&gone, DeletionStrategy::AlwaysSoft), 1);
    assert_eq!(index.facet_values_database().len(), 2);
    let mut gone = RoaringBitmap::new();
    gone.insert(renewed);
    assert_eq!(index.delete_documents(&gone, DeletionStrategy::AlwaysHard), 1);
    assert_eq!(
        entries(index.facet_values_database()),
        vec![(key(1, 1, "blue"), "blue".to_string())]
    );
}

#[test]
fn a_chunk_of_strings_is_written_over_the_index() {
    let mut index = Index::new(Settings::new());
    let mut chunk = FacetValues::new();
    chunk.put(key(0, 4, "red"), b"Red".to_vec());
    let (docids, merged) =
        write_typed_chunk_into_index(TypedChunk::FieldIdDocidFacetStrings(chunk), &mut index);
    assert!(docids.is_empty());
    assert!(!merged);

    let mut chunk = FacetValues::new();
    chunk.put(key(0, 4, "red"), b"RED".to_vec());
    chunk.put(key(0, 5, "red"), b"red".to_vec());
    let mut tracker = ProgressTracker::new(0, 0);
    let received = Ok(TypedChunk::FieldIdDocidFacetStrings(chunk));
    let told = std::cell::Cell::new(0);
    let progress = |_| told.set(told.get() + 1);
    assert_eq!(merge_received(&mut index, &mut tracker, received, &progress, &|| false), Ok(()));
    assert_eq!(told.get(), 0);
    assert_eq!(
        entries(index.facet_values_database()),
        vec![(key(0, 4, "red"), "RED".to_string()), (key(0, 5, "red"), "red".to_string())]
    );
}
