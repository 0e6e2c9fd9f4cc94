use docindex::documents::Document;
use docindex::enrich::{RawDocument, RawField};
use docindex::error::{Error, UserError};
use docindex::extract::Database;
use docindex::index::{DeletionStrategy, Index};
use docindex::index_documents::{
    DocumentAdditionResult, IndexDocuments, IndexDocumentsConfig, IndexDocumentsMethod,
    IndexerConfig, UpdateIndexingStep,
};
use docindex::settings::Settings;

/// A document from the names of its fields and their serialized values.
fn document(fields: &[(&str, &str)]) -> RawDocument {
    RawDocument {
        fields: fields
            .iter()
            .map(|(name, value)| RawField {
                name: name.as_bytes().to_vec(),
                value: value.as_bytes().to_vec(),
            })
            .collect(),
        fallback_id: None,
    }
}

/// An index with the configuration under which documents are sent to it.
struct TempIndex {
    index: Index,
    index_documents_config: IndexDocumentsConfig,
}

impl TempIndex {
    fn new() -> TempIndex {
        TempIndex::with_settings(Settings::new())
    }

    fn with_settings(settings: Settings) -> TempIndex {
        TempIndex {
            index: Index::new(settings),
            index_documents_config: IndexDocumentsConfig::default(),
        }
    }

    fn builder(
        &self,
    ) -> IndexDocuments<impl Fn(UpdateIndexingStep), impl Fn() -> bool> {
        IndexDocuments::new(
            &self.index,
            IndexerConfig::default(),
            self.index_documents_config.clone(),
            |_| (),
            || false,
        )
        .unwrap()
    }

    /// Sends one batch and brings the index up to date with it. A fault of
    /// the batch leaves the index as it was.
    fn add_documents(&mut self, batch: Vec<RawDocument>) -> Result<DocumentAdditionResult, Error> {
        let builder = self.builder();
        let (builder, outcome) = builder.add_documents(&self.index, &batch)?;
        outcome.map_err(Error::UserError)?;
        builder.execute(&mut self.index)
    }

    fn number_of_documents(&self) -> u64 {
        self.index.number_of_documents()
    }

    /// The fields of a stored document with their serialized values, in
    /// the order of their ids.
    fn fields_of(&self, id: u32) -> Vec<(u16, Vec<u8>)> {
        let stored: &Document = self.index.document(id).unwrap();
        (0..stored.len()).map(|i| (stored.field_id_at(i), stored.value_at(i).clone())).collect()
    }

    fn word_docids(&self, word: &str) -> Option<Vec<u32>> {
        self.index
            .database(Database::WordDocids)
            .get(word.as_bytes())
            .map(|docids| docids.iter().collect())
    }

    /// The stored documents in the order of their internal ids, each
    /// written as the object that it was sent as.
    fn documents(&self) -> Vec<String> {
        let fields = self.index.fields_ids_map();
        self.index
            .documents_ids()
            .iter()
            .map(|id| {
                let members: Vec<String> = self
                    .fields_of(id)
                    .into_iter()
                    .map(|(field, value)| {
                        format!(
                            "\"{}\":{}",
                            String::from_utf8(fields.name(field).unwrap().clone()).unwrap(),
                            String::from_utf8(value).unwrap()
                        )
                    })
                    .collect();
                format!("{{{}}}", members.join(","))
            })
            .collect()
    }

    fn external_id(&self, name: &str) -> Option<u32> {
        self.index.internal_id(name.as_bytes())
    }

    fn delete_external_id(&mut self, name: &str, strategy: DeletionStrategy) {
        let mut ids = roaring::RoaringBitmap::new();
        if let Some(id) = self.index.internal_id(name.as_bytes()) {
            ids.insert(id);
        }
        self.index.delete_documents(&ids, strategy);
    }
}

fn names(names: &[&str]) -> Vec<Vec<u8>> {
    names.iter().map(|name| name.as_bytes().to_vec()).collect()
}

/// A document without identifier, with the identifier that it gets where
/// identifiers are generated.
fn document_with_fallback(fields: &[(&str, &str)], fallback: &str) -> RawDocument {
    let mut document = document(fields);
    document.fallback_id = Some(fallback.as_bytes().to_vec());
    document
}

#[test]
fn simple_document_replacement() {
    let mut index = TempIndex::new();

    // First we send 3 documents with ids from 1 to 3.
    index
        .add_documents(vec![
            document(&[("id", "1"), ("name", "\"kevin\"")]),
            document(&[("id", "2"), ("name", "\"kevina\"")]),
            document(&[("id", "3"), ("name", "\"benoit\"")]),
        ])
        .unwrap();

    // Check that there is 3 documents now.
    assert_eq!(index.number_of_documents(), 3);

    // Second we send 1 document with id 1, to erase the previous ones.
    index
        .add_documents(vec![document(&[("id", "1"), ("name", "\"updated kevin\"")])])
        .unwrap();

    // Check that there is **always** 3 documents.
    assert_eq!(index.number_of_documents(), 3);

    // Third we send 3 documents again to replace the existing ones.
    index
        .add_documents(vec![
            document(&[("id", "1"), ("name", "\"updated second kevin\"")]),
            document(&[("id", "2"), ("name", "\"updated kevina\"")]),
            document(&[("id", "3"), ("name", "\"updated benoit\"")]),
        ])
        .unwrap();

    // Check that there is **always** 3 documents.
    assert_eq!(index.number_of_documents(), 3);
    let count = index.index.documents_ids().iter().count();
    assert_eq!(count, 3);
}

#[test]
fn simple_document_merge() {
    let mut index = TempIndex::new();
    index.index_documents_config.update_method = IndexDocumentsMethod::UpdateDocuments;

    // First we send 3 documents with duplicate ids and
    // change the index method to merge documents.
    index
        .add_documents(vec![
            document(&[("id", "1"), ("name", "\"kevin\"")]),
            document(&[("id", "1"), ("name", "\"kevina\"")]),
            document(&[("id", "1"), ("name", "\"benoit\"")]),
        ])
        .unwrap();

    // Check that there is only 1 document now.
    assert_eq!(index.number_of_documents(), 1);

    // Check that we get only one document from the database.
    let ids: Vec<u32> = index.index.documents_ids().iter().collect();
    assert_eq!(ids.len(), 1);
    assert_eq!(ids[0], 0);

    // Check that this document is equal to the last one sent.
    let fields = index.fields_of(0);
    let mut doc_iter = fields.iter().map(|(id, value)| (*id, &value[..]));
    assert_eq!(doc_iter.next(), Some((0, &b"1"[..])));
    assert_eq!(doc_iter.next(), Some((1, &br#""benoit""#[..])));
    assert_eq!(doc_iter.next(), None);

    // Second we send 1 document with id 1, to force it to be merged with the previous one.
    index.add_documents(vec![document(&[("id", "1"), ("age", "25")])]).unwrap();

    // Check that there is **always** 1 document.
    assert_eq!(index.number_of_documents(), 1);

    // Check that we get only one document from the database.
    // Since the document has been deleted and re-inserted, its internal docid has been incremented to 1
    let ids: Vec<u32> = index.index.documents_ids().iter().collect();
    assert_eq!(ids.len(), 1);
    assert_eq!(ids[0], 1);

    // Check that this document is equal to the last one sent.
    let fields = index.fields_of(1);
    let mut doc_iter = fields.iter().map(|(id, value)| (*id, &value[..]));
    assert_eq!(doc_iter.next(), Some((0, &b"1"[..])));
    assert_eq!(doc_iter.next(), Some((1, &br#""benoit""#[..])));
    assert_eq!(doc_iter.next(), Some((2, &b"25"[..])));
    assert_eq!(doc_iter.next(), None);
}

#[test]
fn not_auto_generated_documents_ids() {
    let mut index = TempIndex::new();

    let result = index.add_documents(vec![
        document(&[("name", "\"kevin\"")]),
        document(&[("name", "\"kevina\"")]),
        document(&[("name", "\"benoit\"")]),
    ]);
    assert!(result.is_err());
    assert_eq!(result, Err(Error::UserError(UserError::NoPrimaryKeyCandidateFound)));

    // Check that there is no document.
    assert_eq!(index.number_of_documents(), 0);
}

#[test]
fn empty_update() {
    let mut index = TempIndex::new();

    // First we send 0 documents and only headers.
    index.add_documents(vec![]).unwrap();

    // Check that there is no documents.
    assert_eq!(index.number_of_documents(), 0);
}

#[test]
fn word_postings_follow_the_documents() {
    let mut index = TempIndex::new();
    index.index_documents_config.deletion_strategy = DeletionStrategy::AlwaysHard;
    index
        .add_documents(vec![
            document(&[("id", "1"), ("name", "\"kevin\"")]),
            document(&[("id", "2"), ("name", "\"Kevin and Benoit\"")]),
        ])
        .unwrap();
    assert_eq!(index.word_docids("kevin"), Some(vec![0, 1]));
    assert_eq!(index.word_docids("benoit"), Some(vec![1]));
    assert_eq!(index.word_docids("and"), Some(vec![1]));
    assert_eq!(index.word_docids("Kevin"), None);
}

#[test]
fn simple_auto_generated_documents_ids() {
    let mut index = TempIndex::new();
    index.index_documents_config.autogenerate_docids = true;
    // First we send 3 documents with ids from 1 to 3.
    index
        .add_documents(vec![
            document_with_fallback(
                &[("name", "\"kevin\"")],
                "7f1e3c1a-5a4b-4b6e-9c3d-2f1a0b9c8d7e",
            ),
            document_with_fallback(
                &[("name", "\"kevina\"")],
                "0a9b8c7d-6e5f-4a3b-8c2d-1e0f9a8b7c6d",
            ),
            document_with_fallback(
                &[("name", "\"benoit\"")],
                "123e4567-e89b-42d3-a456-426614174000",
            ),
        ])
        .unwrap();

    // Check that there is 3 documents now.
    assert_eq!(index.number_of_documents(), 3);

    let docs: Vec<(u32, Vec<(u16, Vec<u8>)>)> =
        vec![0, 1, 2].into_iter().map(|id| (id, index.fields_of(id))).collect();
    let (_id, obkv) =
        docs.iter().find(|(_id, kv)| kv[0].1 == br#""kevin""#.to_vec()).unwrap();
    let quoted = String::from_utf8(obkv[1].1.clone()).unwrap();
    let kevin_uuid: String = quoted.trim_matches('"').to_string();

    // Second we send 1 document with the generated uuid, to erase the previous ones.
    index
        .add_documents(vec![document(&[
            ("name", "\"updated kevin\""),
            ("id", &format!("\"{}\"", kevin_uuid)),
        ])])
        .unwrap();

    // Check that there is **always** 3 documents.
    assert_eq!(index.number_of_documents(), 3);

    // the document 0 has been deleted and reinserted with the id 3
    let docs: Vec<(u32, Vec<(u16, Vec<u8>)>)> =
        vec![1, 2, 3].into_iter().map(|id| (id, index.fields_of(id))).collect();
    let kevin_position =
        docs.iter().position(|(_, d)| d[0].1 == br#""updated kevin""#.to_vec()).unwrap();
    assert_eq!(kevin_position, 2);
    let (_, doc) = &docs[kevin_position];

    // Check that this document is equal to the last
    // one sent and that an UUID has been generated.
    assert_eq!(doc[0], (0, br#""updated kevin""#.to_vec()));
    // This is an UUID, it must be 36 bytes long plus the 2 surrounding string quotes (").
    assert_eq!(doc[1].1.len(), 36 + 2);
}

#[test]
fn reordered_auto_generated_documents_ids() {
    let mut index = TempIndex::new();

    // First we send 3 documents with ids from 1 to 3.
    index
        .add_documents(vec![
            document(&[("id", "1"), ("name", "\"kevin\"")]),
            document(&[("id", "2"), ("name", "\"kevina\"")]),
            document(&[("id", "3"), ("name", "\"benoit\"")]),
        ])
        .unwrap();

    // Check that there is 3 documents now.
    assert_eq!(index.number_of_documents(), 3);

    // Second we send 1 document without specifying the id.
    index.index_documents_config.autogenerate_docids = true;
    index
        .add_documents(vec![document_with_fallback(
            &[("name", "\"new kevin\"")],
            "5f0c2b1e-3d4a-4c5b-8e6f-7a8b9c0d1e2f",
        )])
        .unwrap();

    // Check that there is 4 documents now.
    assert_eq!(index.number_of_documents(), 4);
}

#[test]
fn invalid_documents_ids() {
    let mut index = TempIndex::new();

    // First we send 1 document with an invalid id.
    // There is a space in the document id.
    index
        .add_documents(vec![document(&[("id", "\"brume bleue\""), ("name", "\"kevin\"")])])
        .unwrap_err();

    // Then we send 1 document with a valid id.
    index.add_documents(vec![document(&[("id", "32"), ("name", "\"kevin\"")])]).unwrap();

    // Check that there is 1 document now.
    assert_eq!(index.number_of_documents(), 1);
}

#[test]
fn complex_documents() {
    let mut index = TempIndex::new();

    // First we send 3 documents with an id for only one of them.
    index
        .add_documents(vec![
            document(&[
                ("id", "0"),
                ("name", "\"kevin\""),
                ("object", r#"{"key1":"value1","key2":"value2"}"#),
            ]),
            document(&[("id", "1"), ("name", "\"kevina\""), ("array", r#"["I","am","fine"]"#)]),
            document(&[
                ("id", "2"),
                ("name", "\"benoit\""),
                ("array_of_object", r#"[{"wow":"amazing"}]"#),
            ]),
        ])
        .unwrap();

    // The word database stands for the search here.

    // Search for a sub object value
    assert_eq!(index.word_docids("value2").unwrap(), vec![0]);

    // Search for a sub array value
    assert_eq!(index.word_docids("fine").unwrap(), vec![1]);

    // Search for a sub array sub object key
    assert_eq!(index.word_docids("amazing").unwrap(), vec![2]);
}

#[test]
fn simple_documents_replace() {
    let mut index = TempIndex::new();
    index.index_documents_config.update_method = IndexDocumentsMethod::ReplaceDocuments;

    index
        .add_documents(vec![
            document(&[
                ("id", "2"),
                ("title", "\"Pride and Prejudice\""),
                ("author", "\"Jane Austin\""),
                ("genre", "\"romance\""),
                ("price", "3.5"),
                ("_geo", r#"{"lat":12,"lng":42}"#),
            ]),
            document(&[
                ("id", "456"),
                ("title", "\"Le Petit Prince\""),
                ("author", "\"Antoine de Saint-Exupéry\""),
                ("genre", "\"adventure\""),
                ("price", "10.0"),
            ]),
            document(&[
                ("id", "1"),
                ("title", "\"Alice In Wonderland\""),
                ("author", "\"Lewis Carroll\""),
                ("genre", "\"fantasy\""),
                ("price", "25.99"),
            ]),
            document(&[
                ("id", "1344"),
                ("title", "\"The Hobbit\""),
                ("author", "\"J. R. R. Tolkien\""),
                ("genre", "\"fantasy\""),
            ]),
            document(&[
                ("id", "4"),
                ("title", "\"Harry Potter and the Half-Blood Prince\""),
                ("author", "\"J. K. Rowling\""),
                ("genre", "\"fantasy\""),
            ]),
            document(&[
                ("id", "42"),
                ("title", "\"The Hitchhiker's Guide to the Galaxy\""),
                ("author", "\"Douglas Adams\""),
                ("_geo", r#"{"lat":35,"lng":23}"#),
            ]),
        ])
        .unwrap();

    index.index_documents_config.update_method = IndexDocumentsMethod::UpdateDocuments;

    index
        .add_documents(vec![
            document(&[("id", "4"), ("title", "\"Harry Potter and the Half-Blood Princess\"")]),
            document(&[("id", "456"), ("title", "\"The Little Prince\"")]),
        ])
        .unwrap();

    index
        .add_documents(vec![document(&[
            ("id", "2"),
            ("author", "\"J. Austen\""),
            ("date", "\"1813\""),
        ])])
        .unwrap();

    // Check that there is **always** 6 documents.
    assert_eq!(index.number_of_documents(), 6);
    let count = index.index.documents_ids().iter().count();
    assert_eq!(count, 6);

    let soft_deleted: Vec<u32> = index.index.soft_deleted_documents_ids().iter().collect();
    assert_eq!(soft_deleted, vec![0, 1, 4]);
}

#[test]
fn delete_documents_then_insert() {
    let mut index = TempIndex::new();

    index
        .add_documents(vec![
            document(&[
                ("objectId", "123"),
                ("title", "\"Pride and Prejudice\""),
                ("comment", "\"A great book\""),
            ]),
            document(&[
                ("objectId", "456"),
                ("title", "\"Le Petit Prince\""),
                ("comment", "\"A french book\""),
            ]),
            document(&[
                ("objectId", "1"),
                ("title", "\"Alice In Wonderland\""),
                ("comment", "\"A weird book\""),
            ]),
            document(&[
                ("objectId", "30"),
                ("title", "\"Hamlet\""),
                ("_geo", r#"{"lat":12,"lng":89}"#),
            ]),
        ])
        .unwrap();
    assert_eq!(index.index.get_primary_key().map(|key| &key[..]), Some(&b"objectId"[..]));

    // Delete not all of the documents but some of them.
    index.delete_external_id("30", DeletionStrategy::AlwaysSoft);

    assert!(index.external_id("30").is_none());

    index
        .add_documents(vec![document(&[
            ("objectId", "30"),
            ("title", "\"Hamlet\""),
            ("_geo", r#"{"lat":12,"lng":89}"#),
        ])])
        .unwrap();

    assert!(index.external_id("30").is_some());

    index
        .add_documents(vec![document(&[
            ("objectId", "30"),
            ("title", "\"Hamlet\""),
            ("_geo", r#"{"lat":12,"lng":89}"#),
        ])])
        .unwrap();
}

#[test]
fn index_more_than_256_fields() {
    let mut index = TempIndex::new();

    let mut big_object: Vec<(String, String)> = Vec::new();
    big_object.push(("id".to_string(), "\"wow\"".to_string()));
    for i in 0..1000 {
        let key = i.to_string();
        big_object.push((key, "\"I am a text!\"".to_string()));
    }
    let fields: Vec<(&str, &str)> =
        big_object.iter().map(|(name, value)| (name.as_str(), value.as_str())).collect();

    index.add_documents(vec![document(&fields)]).unwrap();
}

#[test]
fn index_documents_with_zeroes() {
    let mut index = TempIndex::new();

    index
        .add_documents(vec![
            document(&[
                ("id", "2"),
                ("title", "\"Prideand Prejudice\""),
                ("au{hor", "\"Jane Austin\""),
                ("genre", "\"romance\""),
                ("price$", "\"3.5$\""),
            ]),
            document(&[
                ("id", "456"),
                ("title", "\"Le Petit Prince\""),
                ("au{hor", "\"Antoine de Saint-Exupéry\""),
                ("genre", "\"adventure\""),
                ("price$", "\"10.0$\""),
            ]),
            document(&[
                ("id", "1"),
                ("title", "\"Wonderland\""),
                ("au{hor", "\"Lewis Carroll\""),
                ("genre", "\"fantasy\""),
                ("price$", "\"25.99$\""),
            ]),
            document(&[
                ("id", "4"),
                ("title", "\"Harry Potter ing fantasy\\u0000lood Prince\""),
                ("au{hor", "\"J. K. Rowling\""),
                ("genre", "\"fantasy\\u0000\""),
            ]),
        ])
        .unwrap();
}

#[test]
fn index_2_times_documents_split_by_zero_document_indexation() {
    let mut index = TempIndex::new();

    let batch = || {
        vec![
            document(&[("id", "0"), ("name", "\"Kerollmops\""), ("score", "78")]),
            document(&[("id", "1"), ("name", "\"ManyTheFish\""), ("score", "75")]),
            document(&[("id", "2"), ("name", "\"Ferdi\""), ("score", "39")]),
            document(&[("id", "3"), ("name", "\"Tommy\""), ("score", "33")]),
        ]
    };

    index.add_documents(batch()).unwrap();

    // Check that there is 4 document now.
    assert_eq!(index.number_of_documents(), 4);

    index.add_documents(vec![]).unwrap();

    // Check that there is 4 document now.
    assert_eq!(index.number_of_documents(), 4);

    index.add_documents(batch()).unwrap();

    // Check that there is 4 document now.
    assert_eq!(index.number_of_documents(), 4);
}

/// We try to index documents with words that are too long here,
/// it should not return any error.
#[test]
fn text_with_too_long_words() {
    let mut index = TempIndex::new();

    index
        .add_documents(vec![
            document(&[("id", "1"), ("title", &format!("\"{}\"", "a".repeat(256)))]),
            document(&[("id", "2"), ("title", &format!("\"{}\"", "b".repeat(512)))]),
            document(&[
                ("id", "3"),
                ("title", &format!("\"{} {}\"", "c".repeat(250), "d".repeat(250))),
            ]),
        ])
        .unwrap();
}

#[test]
fn text_with_too_long_keys() {
    let mut index = TempIndex::new();
    let script = "https://bug.example.com/meilisearch/milli.saml2?ROLE=Programmer-1337&SAMLRequest=Cy1ytcZT1Po%2L2IY2y9Unru8rgnW4qWfPiI0EpT7P8xjJV8PeQikRL%2E8D9A4pj9tmbymbQCQwGmGjPMK7qwXFPX4DH52JO2b7n6TXjuR7zkIFuYdzdY2rwRNBPgCL7ihclEm9zyIjKZQ%2JTqiwfXxWjnI0KEYQYHdwd6Q%2Fx%28BDLNsvmL54CCY2F4RWeRs4eqWfn%2EHqxlhreFzax4AiQ2tgOtV5thOaaWqrhZD%2Py70nuyZWNTKwciGI43AoHg6PThANsQ5rAY5amzN%2ufbs1swETUXlLZuOut5YGpYPZfY6STJWNp4QYSUOUXBZpdElYsH7UHZ7VhJycgyt%28aTK0GW6GbKne2tJM0hgSczOqndg6RFa9WsnSBi4zMcaEfYur4WlSsHDYInF9ROousKqVMZ6H8%2gbUissaLh1eXRGo8KEJbyEHbhVVKGD%28kx4cfKjx9fT3pkeDTdvDrVn25jIzi9wHyt9l1lWc8ICnCvXCVUPP%2BjBG4wILR29gMV9Ux2QOieQm2%2Fycybhr8sBGCl30mHC7blvWt%2T3mrCHQoS3VK49PZNPqBZO9C7vOjOWoszNkJx4QckWV%2FZFvbpzUUkiBiehr9F%2FvQSxz9lzv68GwbTu9fr638p%2FQM%3D&RelayState=https%3A%2F%example.bug.com%2Fde&SigAlg=http%3A%2F%2Fwww.w3.org%2F2000%2F09%2Fxmldsig%23rsa-sha1&Signature=AZFpkhFFII7PodiewTovaGnLQKUVZp0qOCCcBIUkJ6P5by3lE3Lldj9pKaFu4wz4j%2B015HEhDvF0LlAmwwES85vdGh%2FpD%2cIQPRUEjdCbQkQDd3dy1mMXbpXxSe4QYcv9Ni7tqNTQxekpO1gE7rtg6zC66EU55uM9aj9abGQ034Vly%2F6IJ08bvAq%2B%2FB9KruLstuiNWnlXTfNGsOxGLK7%2BXr94LTkat8m%2FMan6Qr95%2KeR5TmmqaQIE4N9H6o4TopT7mXr5CF2Z3";
    let quoted = format!("\"{}\"", script);

    // Create 200 documents with a long text
    let content: Vec<RawDocument> = (0..200i32)
        .map(|i| document(&[("id", &i.to_string()), ("script", &quoted)]))
        .collect();
    // Index those 200 long documents
    index.add_documents(content).unwrap();

    // Index one long document
    index.add_documents(vec![document(&[("id", "400"), ("script", &quoted)])]).unwrap();
}

#[test]
fn index_documents_in_multiple_transforms() {
    let mut index = TempIndex::new();

    let doc1 = vec![document(&[
        ("id", "228142"),
        ("title", "\"asdsad\""),
        ("state", "\"automated\""),
        ("priority", "\"normal\""),
        ("public_uid", "\"37ccf021\""),
        ("project_id", "78207"),
        ("branch_id_number", "0"),
    ])];

    let doc2 = vec![document(&[
        ("id", "228143"),
        ("title", "\"something\""),
        ("state", "\"automated\""),
        ("priority", "\"normal\""),
        ("public_uid", "\"39c6499b\""),
        ("project_id", "78207"),
        ("branch_id_number", "0"),
    ])];

    index.index.put_primary_key(b"id".to_vec());

    index.add_documents(doc1).unwrap();
    index.add_documents(doc2).unwrap();

    let ids: Vec<u32> =
        ["228142", "228143"].iter().map(|name| index.external_id(name).unwrap()).collect();
    let distinct: std::collections::HashSet<u32> = ids.iter().copied().collect();

    assert_eq!(distinct.len(), ids.len());
}

#[test]
fn primary_key_must_not_contain_floats() {
    let mut index = TempIndex::new();

    let doc1 = vec![document(&[("id", "-228142"), ("title", "\"asdsad\"")])];
    let doc2 = vec![document(&[("id", "228143.56"), ("title", "\"something\"")])];
    let doc3 = vec![document(&[("id", "-228143.56"), ("title", "\"something\"")])];
    let doc4 = vec![document(&[("id", "2.0"), ("title", "\"something\"")])];

    index.add_documents(doc1).unwrap();
    index.add_documents(doc2).unwrap_err();
    index.add_documents(doc3).unwrap_err();
    index.add_documents(doc4).unwrap_err();
}

#[test]
fn primary_key_must_not_contain_whitespace() {
    let mut index = TempIndex::new();

    let doc1 = vec![document(&[("id", "\" 1\""), ("title", "\"asdsad\"")])];
    let doc2 = vec![document(&[("id", "\"\\t2\""), ("title", "\"something\"")])];
    let doc3 = vec![document(&[("id", "\"\\r3\""), ("title", "\"something\"")])];
    let doc4 = vec![document(&[("id", "\"\\n4\""), ("title", "\"something\"")])];

    index.add_documents(doc1).unwrap_err();
    index.add_documents(doc2).unwrap_err();
    index.add_documents(doc3).unwrap_err();
    index.add_documents(doc4).unwrap_err();
}

#[test]
fn primary_key_inference() {
    let mut index = TempIndex::new();

    let doc_no_id = vec![document(&[
        ("title", "\"asdsad\""),
        ("state", "\"automated\""),
        ("priority", "\"normal\""),
        ("branch_id_number", "0"),
    ])];
    assert!(matches!(
        index.add_documents(doc_no_id),
        Err(Error::UserError(UserError::NoPrimaryKeyCandidateFound))
    ));

    let doc_multiple_ids = vec![document(&[
        ("id", "228143"),
        ("title", "\"something\""),
        ("state", "\"automated\""),
        ("priority", "\"normal\""),
        ("public_uid", "\"39c6499b\""),
        ("project_id", "78207"),
        ("branch_id_number", "0"),
    ])];

    let Err(Error::UserError(UserError::MultiplePrimaryKeyCandidatesFound { candidates })) =
        index.add_documents(doc_multiple_ids)
    else {
        panic!("Expected Error::UserError(MultiplePrimaryKeyCandidatesFound)")
    };

    assert_eq!(candidates, names(&["id", "project_id", "public_uid"]));

    let doc_inferable = vec![document(&[
        ("video", "\"test.mp4\""),
        ("id", "228143"),
        ("title", "\"something\""),
        ("state", "\"automated\""),
        ("priority", "\"normal\""),
        ("public_uid_", "\"39c6499b\""),
        ("project_id_", "78207"),
        ("branch_id_number", "0"),
    ])];

    index.add_documents(doc_inferable).unwrap();

    assert_eq!(index.index.get_primary_key().unwrap(), &b"id".to_vec());
}

#[test]
fn long_words_must_be_skipped() {
    let mut index = TempIndex::new();

    // this is obviousy too long
    let long_word = "lol".repeat(1000);
    let doc1 = vec![document(&[("id", "\"1\""), ("title", &format!("\"{}\"", long_word))])];

    index.add_documents(doc1).unwrap();

    assert!(index.word_docids(&long_word).is_none());
}

#[test]
fn long_facet_values_must_not_crash() {
    let mut settings = Settings::new();
    settings.filterable_fields = names(&["title"]);
    let mut index = TempIndex::with_settings(settings);

    // this is obviousy too long
    let long_word = "lol".repeat(1000);
    let doc1 = vec![document(&[("id", "\"1\""), ("title", &format!("\"{}\"", long_word))])];

    index.add_documents(doc1).unwrap();
}

#[test]
fn add_and_delete_documents_in_single_transform() {
    let mut index = TempIndex::new();
    index.index_documents_config.update_method = IndexDocumentsMethod::UpdateDocuments;

    let builder = index.builder();

    let documents = vec![
        document(&[("id", "1"), ("doggo", "\"kevin\"")]),
        document(&[("id", "2"), ("doggo", r#"{"name":"bob","age":20}"#)]),
        document(&[("id", "3"), ("name", "\"jean\""), ("age", "25")]),
    ];
    let (builder, added) = builder.add_documents(&index.index, &documents).unwrap();
    assert_eq!(added.unwrap(), 3);

    let (builder, removed) = builder.remove_documents(&index.index, names(&["2"])).unwrap();
    assert_eq!(removed.unwrap(), 1);

    let addition = builder.execute(&mut index.index).unwrap();
    assert_eq!(addition, DocumentAdditionResult { indexed_documents: 3, number_of_documents: 2 });

    assert_eq!(
        index.documents(),
        vec![r#"{"id":1,"doggo":"kevin"}"#, r#"{"id":3,"name":"jean","age":25}"#]
    );
}

#[test]
fn add_update_and_delete_documents_in_single_transform() {
    let mut index = TempIndex::new();
    index.index_documents_config.update_method = IndexDocumentsMethod::UpdateDocuments;

    let builder = index.builder();

    let documents = vec![
        document(&[("id", "1"), ("doggo", "\"kevin\"")]),
        document(&[("id", "2"), ("doggo", r#"{"name":"bob","age":20}"#)]),
        document(&[("id", "3"), ("name", "\"jean\""), ("age", "25")]),
    ];
    let (builder, added) = builder.add_documents(&index.index, &documents).unwrap();
    assert_eq!(added.unwrap(), 3);

    let documents = vec![
        document(&[("id", "2"), ("catto", "\"jorts\"")]),
        document(&[("id", "3"), ("legs", "4")]),
    ];
    let (builder, added) = builder.add_documents(&index.index, &documents).unwrap();
    assert_eq!(added.unwrap(), 2);

    let (builder, removed) = builder.remove_documents(&index.index, names(&["1", "2"])).unwrap();
    assert_eq!(removed.unwrap(), 2);

    let addition = builder.execute(&mut index.index).unwrap();
    assert_eq!(addition, DocumentAdditionResult { indexed_documents: 5, number_of_documents: 1 });

    assert_eq!(index.documents(), vec![r#"{"id":3,"name":"jean","age":25,"legs":4}"#]);
}

#[test]
fn add_document_and_in_another_transform_update_and_delete_documents() {
    let mut index = TempIndex::new();
    index.index_documents_config.update_method = IndexDocumentsMethod::UpdateDocuments;

    let builder = index.builder();

    let documents = vec![
        document(&[("id", "1"), ("doggo", "\"kevin\"")]),
        document(&[("id", "2"), ("doggo", r#"{"name":"bob","age":20}"#)]),
        document(&[("id", "3"), ("name", "\"jean\""), ("age", "25")]),
    ];
    let (builder, added) = builder.add_documents(&index.index, &documents).unwrap();
    assert_eq!(added.unwrap(), 3);

    let addition = builder.execute(&mut index.index).unwrap();
    assert_eq!(addition, DocumentAdditionResult { indexed_documents: 3, number_of_documents: 3 });

    assert_eq!(
        index.documents(),
        vec![
            r#"{"id":1,"doggo":"kevin"}"#,
            r#"{"id":2,"doggo":{"name":"bob","age":20}}"#,
            r#"{"id":3,"name":"jean","age":25}"#
        ]
    );

    // A first batch of documents has been inserted

    let builder = index.builder();

    let documents = vec![
        document(&[("id", "2"), ("catto", "\"jorts\"")]),
        document(&[("id", "3"), ("legs", "4")]),
    ];
    let (builder, added) = builder.add_documents(&index.index, &documents).unwrap();
    assert_eq!(added.unwrap(), 2);

    let (builder, removed) = builder.remove_documents(&index.index, names(&["1", "2"])).unwrap();
    assert_eq!(removed.unwrap(), 2);

    let addition = builder.execute(&mut index.index).unwrap();
    assert_eq!(addition, DocumentAdditionResult { indexed_documents: 2, number_of_documents: 1 });

    assert_eq!(index.documents(), vec![r#"{"id":3,"name":"jean","age":25,"legs":4}"#]);
}

#[test]
fn delete_document_and_then_add_documents_in_the_same_transform() {
    let mut index = TempIndex::new();
    index.index_documents_config.update_method = IndexDocumentsMethod::UpdateDocuments;

    let builder = index.builder();

    let (builder, removed) = builder.remove_documents(&index.index, names(&["1", "2"])).unwrap();
    assert_eq!(removed.unwrap(), 0);

    let documents = vec![
        document(&[("id", "2"), ("doggo", r#"{"name":"jean","age":20}"#)]),
        document(&[("id", "3"), ("name", "\"bob\""), ("age", "25")]),
    ];
    let (builder, added) = builder.add_documents(&index.index, &documents).unwrap();
    assert_eq!(added.unwrap(), 2);

    let addition = builder.execute(&mut index.index).unwrap();
    assert_eq!(addition, DocumentAdditionResult { indexed_documents: 2, number_of_documents: 2 });

    assert_eq!(
        index.documents(),
        vec![r#"{"id":2,"doggo":{"name":"jean","age":20}}"#, r#"{"id":3,"name":"bob","age":25}"#]
    );
}

#[test]
fn delete_the_same_document_multiple_time() {
    let mut index = TempIndex::new();
    index.index_documents_config.update_method = IndexDocumentsMethod::UpdateDocuments;

    let builder = index.builder();

    let (builder, removed) =
        builder.remove_documents(&index.index, names(&["1", "2", "1", "2"])).unwrap();
    assert_eq!(removed.unwrap(), 0);

    let documents = vec![
        document(&[("id", "1"), ("doggo", "\"kevin\"")]),
        document(&[("id", "2"), ("doggo", r#"{"name":"jean","age":20}"#)]),
        document(&[("id", "3"), ("name", "\"bob\""), ("age", "25")]),
    ];
    let (builder, added) = builder.add_documents(&index.index, &documents).unwrap();
    assert_eq!(added.unwrap(), 3);

    let (builder, removed) =
        builder.remove_documents(&index.index, names(&["1", "2", "1", "2"])).unwrap();
    assert_eq!(removed.unwrap(), 2);

    let addition = builder.execute(&mut index.index).unwrap();
    assert_eq!(addition, DocumentAdditionResult { indexed_documents: 3, number_of_documents: 1 });

    assert_eq!(index.documents(), vec![r#"{"id":3,"name":"bob","age":25}"#]);
}

#[test]
fn add_document_and_in_another_transform_delete_the_document_then_add_it_again() {
    let mut index = TempIndex::new();
    index.index_documents_config.update_method = IndexDocumentsMethod::UpdateDocuments;

    let builder = index.builder();

    let documents = vec![document(&[("id", "1"), ("doggo", "\"kevin\"")])];
    let (builder, added) = builder.add_documents(&index.index, &documents).unwrap();
    assert_eq!(added.unwrap(), 1);

    let addition = builder.execute(&mut index.index).unwrap();
    assert_eq!(addition, DocumentAdditionResult { indexed_documents: 1, number_of_documents: 1 });

    assert_eq!(index.documents(), vec![r#"{"id":1,"doggo":"kevin"}"#]);

    // A first batch of documents has been inserted

    let builder = index.builder();

    let (builder, removed) = builder.remove_documents(&index.index, names(&["1"])).unwrap();
    assert_eq!(removed.unwrap(), 1);

    let documents = vec![document(&[("id", "1"), ("catto", "\"jorts\"")])];
    let (builder, added) = builder.add_documents(&index.index, &documents).unwrap();
    assert_eq!(added.unwrap(), 1);

    let addition = builder.execute(&mut index.index).unwrap();
    assert_eq!(addition, DocumentAdditionResult { indexed_documents: 1, number_of_documents: 1 });

    assert_eq!(index.documents(), vec![r#"{"id":1,"catto":"jorts"}"#]);
}

#[test]
fn reproduce_the_bug() {
    let mut index = TempIndex::new();
    index.index_documents_config.deletion_strategy = DeletionStrategy::AlwaysHard;

    // START OF BATCH

    println!("--- ENTERING BATCH 1");

    let builder = index.builder();

    // OP

    let documents = vec![document(&[("id", "1"), ("doggo", "\"bernese\"")])];
    let (builder, added) = builder.add_documents(&index.index, &documents).unwrap();
    assert_eq!(added.unwrap(), 1);

    // FINISHING
    let addition = builder.execute(&mut index.index).unwrap();
    assert_eq!(addition, DocumentAdditionResult { indexed_documents: 1, number_of_documents: 1 });

    assert_eq!(index.documents(), vec![r#"{"id":1,"doggo":"bernese"}"#]);
    assert_eq!(index.external_id("1"), Some(0));

    // A first batch of documents has been inserted

    // BATCH 2

    println!("--- ENTERING BATCH 2");

    let builder = index.builder();

    let (builder, removed) = builder.remove_documents(&index.index, names(&["1"])).unwrap();
    assert_eq!(removed.unwrap(), 1);

    let documents = vec![document(&[("id", "0"), ("catto", "\"jorts\"")])];
    let (builder, added) = builder.add_documents(&index.index, &documents).unwrap();
    assert_eq!(added.unwrap(), 1);

    let addition = builder.execute(&mut index.index).unwrap();
    assert_eq!(addition, DocumentAdditionResult { indexed_documents: 1, number_of_documents: 1 });

    assert_eq!(index.documents(), vec![r#"{"id":0,"catto":"jorts"}"#]);

    assert_eq!(index.external_id("0"), Some(1));
    assert_eq!(index.external_id("1"), None);

    let soft_deleted: Vec<u32> = index.index.soft_deleted_documents_ids().iter().collect();
    assert_eq!(soft_deleted, Vec::<u32>::new());

    // BATCH 3

    println!("--- ENTERING BATCH 3");

    let builder = index.builder();

    let documents = vec![document(&[("id", "1"), ("catto", "\"jorts\"")])];
    let (builder, added) = builder.add_documents(&index.index, &documents).unwrap();
    assert_eq!(added.unwrap(), 1);

    let addition = builder.execute(&mut index.index).unwrap();
    assert_eq!(addition, DocumentAdditionResult { indexed_documents: 1, number_of_documents: 2 });

    assert_eq!(
        index.documents(),
        vec![r#"{"id":1,"catto":"jorts"}"#, r#"{"id":0,"catto":"jorts"}"#]
    );

    // Ensuring all the returned IDs actually exists
    for id in index.index.documents_ids().iter() {
        assert!(index.index.document(id).is_some());
    }
}

#[test]
fn index_more_than_1000_positions_in_a_field() {
    let mut index = TempIndex::new();
    let mut content = String::with_capacity(382101);
    for i in 0..=u16::MAX {
        content.push_str(&format!("{i} "));
    }
    index
        .add_documents(vec![document(&[
            ("id", "\"wow\""),
            ("content", &format!("\"{}\"", content)),
        ])])
        .unwrap();

    assert!(index.word_docids("0").is_some());
    assert!(index.word_docids("64").is_some());
    assert!(index.word_docids("256").is_some());
    assert!(index.word_docids("1024").is_some());
    assert!(index.word_docids("32768").is_some());
    assert!(index.word_docids("65535").is_some());
}

/// The documents that a facet database lists for a field.
fn facet_docids(index: &TempIndex, database: Database, field: &str) -> Vec<u32> {
    let id = index.index.fields_ids_map().id(field.as_bytes()).unwrap();
    index
        .index
        .database(database)
        .get(&id.to_be_bytes())
        .map(|docids| docids.iter().collect())
        .unwrap_or_default()
}

/// The names of the fields that are indexed as facets.
fn facets(index: &TempIndex) -> Vec<String> {
    let fields = index.index.fields_ids_map();
    let mut facets: Vec<String> = index
        .index
        .get_settings()
        .faceted_fields(fields)
        .into_iter()
        .map(|id| String::from_utf8(fields.name(id).unwrap().clone()).unwrap())
        .collect();
    facets.sort();
    facets
}

// In the three tests that follow a document is written as the layer that
// decodes it hands it over: with each field of an object beside the object.

#[test]
fn index_documents_check_exists_database() {
    let content = || {
        vec![
            document(&[("id", "0"), ("colour", "0")]),
            document(&[("id", "1"), ("colour", "[]")]),
            document(&[("id", "2"), ("colour", "{}")]),
            document(&[("id", "3"), ("colour", "null")]),
            document(&[("id", "4"), ("colour", "[1]")]),
            document(&[("id", "5")]),
            document(&[("id", "6"), ("colour", r#"{"green":1}"#), ("colour.green", "1")]),
            document(&[
                ("id", "7"),
                ("colour", r#"{"green":{"blue":[]}}"#),
                ("colour.green", r#"{"blue":[]}"#),
                ("colour.green.blue", "[]"),
            ]),
        ]
    };

    let check_ok = |index: &TempIndex| {
        assert_eq!(facets(index), vec!["colour", "colour.green", "colour.green.blue"]);

        let bitmap_colour = facet_docids(index, Database::FacetIdExistsDocids, "colour");
        assert_eq!(bitmap_colour, vec![0, 1, 2, 3, 4, 6, 7]);

        let bitmap_colour_green =
            facet_docids(index, Database::FacetIdExistsDocids, "colour.green");
        assert_eq!(bitmap_colour_green, vec![6, 7]);
    };

    let mut settings = Settings::new();
    settings.filterable_fields = names(&["colour"]);
    let mut index = TempIndex::with_settings(settings);
    index.add_documents(content()).unwrap();
    check_ok(&index);
}

#[test]
fn index_documents_check_is_null_database() {
    let content = || {
        vec![
            document(&[("id", "0"), ("colour", "null")]),
            // must not be returned
            document(&[("id", "1"), ("colour", "[null]")]),
            document(&[("id", "6"), ("colour", r#"{"green":null}"#), ("colour.green", "null")]),
            document(&[
                ("id", "7"),
                ("colour", r#"{"green":{"blue":null}}"#),
                ("colour.green", r#"{"blue":null}"#),
                ("colour.green.blue", "null"),
            ]),
            document(&[("id", "8"), ("colour", "0")]),
            document(&[("id", "9"), ("colour", "[]")]),
            document(&[("id", "10"), ("colour", "{}")]),
            document(&[("id", "12"), ("colour", "[1]")]),
            document(&[("id", "13")]),
            document(&[("id", "14"), ("colour", r#"{"green":1}"#), ("colour.green", "1")]),
            document(&[
                ("id", "15"),
                ("colour", r#"{"green":{"blue":[]}}"#),
                ("colour.green", r#"{"blue":[]}"#),
                ("colour.green.blue", "[]"),
            ]),
        ]
    };

    let check_ok = |index: &TempIndex| {
        assert_eq!(facets(index), vec!["colour", "colour.green", "colour.green.blue"]);

        let bitmap_null_colour = facet_docids(index, Database::FacetIdIsNullDocids, "colour");
        assert_eq!(bitmap_null_colour, vec![0]);

        let bitmap_colour_green =
            facet_docids(index, Database::FacetIdIsNullDocids, "colour.green");
        assert_eq!(bitmap_colour_green, vec![2]);

        let bitmap_colour_blue =
            facet_docids(index, Database::FacetIdIsNullDocids, "colour.green.blue");
        assert_eq!(bitmap_colour_blue, vec![3]);
    };

    let mut settings = Settings::new();
    settings.filterable_fields = names(&["colour"]);
    let mut index = TempIndex::with_settings(settings);
    index.add_documents(content()).unwrap();
    check_ok(&index);
}

#[test]
fn index_documents_check_is_empty_database() {
    let content = || {
        vec![
            document(&[("id", "0"), ("tags", "null")]),
            document(&[("id", "1"), ("tags", "[null]")]),
            document(&[("id", "2"), ("tags", "[]")]),
            document(&[("id", "3"), ("tags", r#"["hello","world"]"#)]),
            document(&[("id", "4"), ("tags", r#"[""]"#)]),
            document(&[("id", "5")]),
            document(&[("id", "6"), ("tags", "{}")]),
            document(&[("id", "7"), ("tags", r#"{"green":"cool"}"#), ("tags.green", "\"cool\"")]),
            document(&[("id", "8"), ("tags", r#"{"green":""}"#), ("tags.green", "\"\"")]),
            document(&[("id", "9"), ("tags", "\"\"")]),
            document(&[("id", "10"), ("tags", r#"{"green":null}"#), ("tags.green", "null")]),
            document(&[
                ("id", "11"),
                ("tags", r#"{"green":{"blue":null}}"#),
                ("tags.green", r#"{"blue":null}"#),
                ("tags.green.blue", "null"),
            ]),
            document(&[
                ("id", "12"),
                ("tags", r#"{"green":{"blue":[]}}"#),
                ("tags.green", r#"{"blue":[]}"#),
                ("tags.green.blue", "[]"),
            ]),
        ]
    };

    let check_ok = |index: &TempIndex| {
        assert_eq!(facets(index), vec!["tags", "tags.green", "tags.green.blue"]);

        let bitmap_empty_tags = facet_docids(index, Database::FacetIdIsEmptyDocids, "tags");
        assert_eq!(bitmap_empty_tags, vec![2, 6, 9]);

        let bitmap_tags_green = facet_docids(index, Database::FacetIdIsEmptyDocids, "tags.green");
        assert_eq!(bitmap_tags_green, vec![8]);

        let bitmap_tags_blue =
            facet_docids(index, Database::FacetIdIsEmptyDocids, "tags.green.blue");
        assert_eq!(bitmap_tags_blue, vec![12]);
    };

    let mut settings = Settings::new();
    settings.filterable_fields = names(&["tags"]);
    let mut index = TempIndex::with_settings(settings);
    index.add_documents(content()).unwrap();
    check_ok(&index);
}

#[test]
fn retrieve_a_b_nested_document_id() {
    let mut index = TempIndex::new();
    index.index.put_primary_key(b"a.b".to_vec());

    // There must be an issue with the primary key no present in the given document
    index
        .add_documents(vec![document(&[
            ("a", r#"{"b":{"c":1}}"#),
            ("a.b", r#"{"c":1}"#),
            ("a.b.c", "1"),
        ])])
        .unwrap_err();
}

#[test]
fn retrieve_a_b_c_nested_document_id() {
    let mut index = TempIndex::new();
    index.index.put_primary_key(b"a.b.c".to_vec());
    index
        .add_documents(vec![document(&[
            ("a", r#"{"b":{"c":1}}"#),
            ("a.b", r#"{"c":1}"#),
            ("a.b.c", "1"),
        ])])
        .unwrap();

    assert!(index.external_id("1").is_some());
}
