use docindex::documents::Document;
use docindex::enrich::{parse_document_id, primary_key_candidates, RawDocument, RawField};
use docindex::extract::{extract_document_keys, extract_field_keys, Database};
use docindex::fields::FieldsIdsMap;
use docindex::postings::Postings;
use docindex::prefix::{compute_prefixes, group_prefixes, select_prefixes, union_for_prefix};
use docindex::prefix_databases::{find_word, update_prefix_database, KeyShape};
use docindex::settings::Settings;
use docindex::sorted_map::ByteMap;
use docindex::sorter::{sort_entries, KeyEntry};
use docindex::tokenizer::tokenize;
use roaring::RoaringBitmap;

fn words(text: &str, settings: &Settings) -> Vec<String> {
    tokenize(text.as_bytes(), settings)
        .into_iter()
        .map(|word| String::from_utf8(word).unwrap())
        .collect()
}

fn bytes(names: &[&str]) -> Vec<Vec<u8>> {
    names.iter().map(|name| name.as_bytes().to_vec()).collect()
}

fn bitmap(ids: &[u32]) -> RoaringBitmap {
    ids.iter().copied().collect()
}

#[test]
fn words_are_runs_of_letters_and_digits_in_lower_case() {
    let settings = Settings::new();
    assert_eq!(
        words("\"The quick (brown) fox can't jump 32.3 feet!\"", &settings),
        vec!["the", "quick", "brown", "fox", "can", "t", "jump", "32", "3", "feet"]
    );
    assert_eq!(words("", &settings), Vec::<String>::new());
    assert_eq!(words(" -- ", &settings), Vec::<String>::new());
    assert_eq!(words("Saint-Exupéry", &settings), vec!["saint", "exupéry"]);
}

#[test]
fn a_listed_separator_cuts_a_word() {
    let mut settings = Settings::new();
    settings.separators = b"x".to_vec();
    assert_eq!(words("taxi boxes", &settings), vec!["ta", "i", "bo", "es"]);
}

#[test]
fn a_term_of_the_dictionary_is_one_word() {
    let mut settings = Settings::new();
    settings.dictionary = bytes(&["c++", "j. r. r."]);
    assert_eq!(
        words("I love C++ and J. R. R. Tolkien", &settings),
        vec!["i", "love", "c++", "and", "j. r. r.", "tolkien"]
    );
    // A term is no word where a letter follows it.
    assert_eq!(words("c++x", &settings), vec!["c", "x"]);
}

#[test]
fn each_database_has_its_own_keys() {
    let settings = Settings::new();
    let value = b"\"sun flowers sun\"";

    let mut found = extract_field_keys(Database::WordDocids, &settings, 3, value);
    found.sort();
    found.dedup();
    assert_eq!(found, bytes(&["flowers", "sun"]));

    let mut found = extract_field_keys(Database::WordFidDocids, &settings, 0x0102, value);
    found.sort();
    found.dedup();
    assert_eq!(found, vec![b"flowers\x00\x01\x02".to_vec(), b"sun\x00\x01\x02".to_vec()]);

    let mut found = extract_field_keys(Database::WordPositionDocids, &settings, 3, value);
    found.sort();
    assert_eq!(
        found,
        vec![
            b"flowers\x00\x00\x01".to_vec(),
            b"sun\x00\x00\x00".to_vec(),
            b"sun\x00\x00\x02".to_vec()
        ]
    );

    let mut found = extract_field_keys(Database::WordPairProximityDocids, &settings, 3, value);
    found.sort();
    assert_eq!(
        found,
        vec![
            b"\x01flowers\x00sun".to_vec(),
            b"\x01sun\x00flowers".to_vec(),
            b"\x02sun\x00sun".to_vec()
        ]
    );
}

#[test]
fn words_more_than_seven_positions_apart_are_no_pair() {
    let settings = Settings::new();
    let found = extract_field_keys(
        Database::WordPairProximityDocids,
        &settings,
        0,
        b"a b c d e f g h i",
    );
    assert!(found.contains(&b"\x07a\x00h".to_vec()));
    assert!(!found.iter().any(|key| key.ends_with(b"a\x00i")));
    assert!(found.contains(&b"\x07b\x00i".to_vec()));
}

#[test]
fn stop_words_long_words_and_late_positions_are_not_indexed() {
    let mut settings = Settings::new();
    settings.stop_words = bytes(&["the"]);
    settings.max_positions_per_attributes = 3;
    let long = "a".repeat(251);
    let value = format!("\"the sun {long} shines\"");

    let mut found = extract_field_keys(Database::WordDocids, &settings, 0, value.as_bytes());
    found.sort();
    // `the` is a stop word, the third word is too long and the fourth stands too late.
    assert_eq!(found, bytes(&["sun"]));

    let exactly = "b".repeat(250);
    let found = extract_field_keys(Database::WordDocids, &Settings::new(), 0, exactly.as_bytes());
    assert_eq!(found, vec![exactly.into_bytes()]);
}

#[test]
fn facets_are_keyed_by_field_and_value() {
    let settings = Settings::new();
    let id = 0x0a0b;
    assert_eq!(
        extract_field_keys(Database::FacetIdExistsDocids, &settings, id, b"12"),
        vec![vec![0x0a, 0x0b]]
    );
    assert_eq!(
        extract_field_keys(Database::FacetIdIsNullDocids, &settings, id, b"null"),
        vec![vec![0x0a, 0x0b]]
    );
    assert!(extract_field_keys(Database::FacetIdIsNullDocids, &settings, id, b"[null]").is_empty());
    for empty in [&b"\"\""[..], &b"[]"[..], &b"{}"[..]] {
        assert_eq!(
            extract_field_keys(Database::FacetIdIsEmptyDocids, &settings, id, empty),
            vec![vec![0x0a, 0x0b]]
        );
    }
    assert!(extract_field_keys(Database::FacetIdIsEmptyDocids, &settings, id, b"[\"\"]").is_empty());
    assert_eq!(
        extract_field_keys(Database::FacetIdStringDocids, &settings, id, b"\"Fantasy\""),
        vec![b"\x0a\x0bfantasy".to_vec()]
    );
    assert!(extract_field_keys(Database::FacetIdStringDocids, &settings, id, b"12").is_empty());
    assert!(extract_field_keys(Database::FacetIdStringDocids, &settings, id, b"\"\"").is_empty());
}

#[test]
fn only_the_selected_fields_are_read() {
    let mut fields = FieldsIdsMap::new();
    let title = fields.insert(b"title").unwrap();
    let genre = fields.insert(b"genre").unwrap();
    let code = fields.insert(b"code").unwrap();
    let mut document = Document::new();
    document.insert(title, b"\"The Hobbit\"".to_vec());
    document.insert(genre, b"\"fantasy\"".to_vec());
    document.insert(code, b"\"X1\"".to_vec());

    let mut settings = Settings::new();
    settings.searchable_fields = Some(bytes(&["title", "code"]));
    settings.exact_attributes = bytes(&["code"]);
    settings.filterable_fields = bytes(&["genre"]);

    let mut found = extract_document_keys(Database::WordDocids, &settings, &fields, &document);
    found.sort();
    assert_eq!(found, bytes(&["hobbit", "the"]));
    let found = extract_document_keys(Database::ExactWordDocids, &settings, &fields, &document);
    assert_eq!(found, bytes(&["x1"]));
    let found = extract_document_keys(Database::FacetIdExistsDocids, &settings, &fields, &document);
    assert_eq!(found, vec![vec![0, genre as u8]]);
    let found = extract_document_keys(Database::FacetIdStringDocids, &settings, &fields, &document);
    assert_eq!(found, vec![b"\x00\x01fantasy".to_vec()]);
}

#[test]
fn identifiers_are_integers_or_plain_strings() {
    assert_eq!(parse_document_id(b"42"), Some(b"42".to_vec()));
    assert_eq!(parse_document_id(b"-42"), Some(b"-42".to_vec()));
    assert_eq!(parse_document_id(b"\"a-b_C9\""), Some(b"a-b_C9".to_vec()));
    assert_eq!(parse_document_id(b"\"\""), None);
    assert_eq!(parse_document_id(b"\"a b\""), None);
    assert_eq!(parse_document_id(b"4.2"), None);
    assert_eq!(parse_document_id(b"-"), None);
    assert_eq!(parse_document_id(b""), None);
    assert_eq!(parse_document_id(b"null"), None);
    assert_eq!(parse_document_id(b"[1]"), None);
}

#[test]
fn candidates_come_shortest_first() {
    let batch = vec![
        RawDocument {
            fields: vec![
                RawField { name: b"uuid".to_vec(), value: b"1".to_vec() },
                RawField { name: b"ID".to_vec(), value: b"1".to_vec() },
                RawField { name: b"idea".to_vec(), value: b"1".to_vec() },
            ],
            fallback_id: None,
        },
        RawDocument {
            fields: vec![
                RawField { name: b"guid".to_vec(), value: b"1".to_vec() },
                RawField { name: b"uuid".to_vec(), value: b"1".to_vec() },
            ],
            fallback_id: None,
        },
    ];
    assert_eq!(primary_key_candidates(&batch), bytes(&["ID", "guid", "uuid"]));
}

#[test]
fn postings_merge_by_union_and_forget_empty_keys() {
    let mut database = Postings::new();
    database.merge_entry(b"sun", &bitmap(&[1, 2]));
    database.merge_entry(b"moon", &bitmap(&[2]));
    database.merge_entry(b"star", &bitmap(&[]));
    assert_eq!(database.len(), 2);
    assert_eq!(database.key_at(0), &b"moon".to_vec());
    assert_eq!(database.key_at(1), &b"sun".to_vec());

    let mut chunk = Postings::new();
    chunk.add_document(b"sun", 1);
    chunk.add_document(b"sun", 5);
    chunk.add_document(b"air", 5);
    database.merge(&chunk);

    assert_eq!(database.get(b"sun"), Some(&bitmap(&[1, 2, 5])));
    assert_eq!(database.get(b"air"), Some(&bitmap(&[5])));
    assert_eq!(database.get(b"moon"), Some(&bitmap(&[2])));
    assert_eq!(database.lower_bound(b"b"), 1);

    let copy = database.copy();
    database.remove_documents(&bitmap(&[2, 5]));
    assert_eq!(database.get(b"sun"), Some(&bitmap(&[1])));
    assert_eq!(database.get(b"air"), None);
    assert_eq!(database.get(b"moon"), None);
    assert_eq!(database.len(), 1);
    assert!(!database.is_empty());
    assert_eq!(copy.get(b"moon"), Some(&bitmap(&[2])));

    database.put(b"sun", bitmap(&[9]));
    assert_eq!(database.get(b"sun"), Some(&bitmap(&[9])));
    assert!(database.delete(b"sun"));
    assert!(!database.delete(b"sun"));
    assert!(database.is_empty());
}

#[test]
fn frequent_prefixes_are_counted_by_documents() {
    let mut words = Postings::new();
    words.merge_entry(b"ab", &bitmap(&[1]));
    words.merge_entry(b"abc", &bitmap(&[1, 2]));
    words.merge_entry(b"abd", &bitmap(&[3]));
    words.merge_entry(b"b", &bitmap(&[1, 2]));
    words.merge_entry(b"c", &bitmap(&[4]));

    assert_eq!(union_for_prefix(&words, b"ab"), bitmap(&[1, 2, 3]));
    assert_eq!(union_for_prefix(&words, b"abc"), bitmap(&[1, 2]));
    assert_eq!(union_for_prefix(&words, b"ac"), bitmap(&[]));
    assert_eq!(union_for_prefix(&words, b""), bitmap(&[1, 2, 3, 4]));

    let prefixes = compute_prefixes(&words, 2, 2);
    let found: Vec<Vec<u8>> = (0..prefixes.len()).map(|i| prefixes.key_at(i).clone()).collect();
    assert_eq!(found, bytes(&["a", "ab", "b"]));

    // Three documents hold a word in `ab`, and three letters are too many.
    let prefixes = compute_prefixes(&words, 3, 3);
    let found: Vec<Vec<u8>> = (0..prefixes.len()).map(|i| prefixes.key_at(i).clone()).collect();
    assert_eq!(found, bytes(&["a", "ab"]));
}

#[test]
fn prefixes_are_compared_and_grouped() {
    let mut earlier: ByteMap<()> = ByteMap::new();
    for prefix in ["a", "ab", "b", "ba"] {
        earlier.insert(prefix.as_bytes().to_vec(), ());
    }
    let mut current: ByteMap<()> = ByteMap::new();
    for prefix in ["ab", "ac", "ba", "c"] {
        current.insert(prefix.as_bytes().to_vec(), ());
    }

    let common = select_prefixes(&earlier, &current, true);
    assert_eq!(common, bytes(&["ab", "ba"]));
    assert_eq!(select_prefixes(&current, &earlier, false), bytes(&["ac", "c"]));
    assert_eq!(select_prefixes(&earlier, &current, false), bytes(&["a", "b"]));

    let all = bytes(&["a", "ab", "ac", "b", "ca", "cb"]);
    let groups = group_prefixes(&all);
    let groups: Vec<Vec<Vec<u8>>> = groups.into_iter().map(|group| group.to_vec()).collect();
    assert_eq!(groups, vec![bytes(&["a", "ab", "ac"]), bytes(&["b"]), bytes(&["ca", "cb"])]);
}

#[test]
fn entries_are_sorted_by_key() {
    let entries: Vec<KeyEntry> = ["pear", "apple", "fig", "apple", "", "figs"]
        .iter()
        .enumerate()
        .map(|(i, key)| KeyEntry { key: key.as_bytes().to_vec(), id: i as u32 })
        .collect();

    let order = sort_entries(&entries);

    let keys: Vec<&[u8]> = order.iter().map(|&at| &entries[at].key[..]).collect();
    assert_eq!(keys, vec![&b""[..], b"apple", b"apple", b"fig", b"figs", b"pear"]);
    let mut positions = order.clone();
    positions.sort();
    assert_eq!(positions, vec![0, 1, 2, 3, 4, 5]);
}

#[test]
fn the_word_of_a_key_stands_where_its_shape_says() {
    assert_eq!(find_word(KeyShape::Word, b"sun"), Some((0, 3)));
    assert_eq!(find_word(KeyShape::Word, b""), Some((0, 0)));
    assert_eq!(find_word(KeyShape::WordThenTail, b"sun\x00\x01\x02"), Some((0, 3)));
    assert_eq!(find_word(KeyShape::WordThenTail, b"\x00\x01\x02"), Some((0, 0)));
    assert_eq!(find_word(KeyShape::WordThenTail, b"sun"), None);
    assert_eq!(find_word(KeyShape::WordThenTail, b"s\x00"), None);
    assert_eq!(find_word(KeyShape::HeadThenWord, b"\x01big\x00sun"), Some((5, 8)));
    // The first byte is the distance, also where it is zero.
    assert_eq!(find_word(KeyShape::HeadThenWord, b"\x00big\x00sun"), Some((5, 8)));
    assert_eq!(find_word(KeyShape::HeadThenWord, b"\x01big\x00"), Some((5, 5)));
    assert_eq!(find_word(KeyShape::HeadThenWord, b"\x01big"), None);
    assert_eq!(find_word(KeyShape::HeadThenWord, b""), None);
}

#[test]
fn a_prefix_database_is_updated_with_the_differences() {
    let mut words = Postings::new();
    words.merge_entry(b"sun\x00\x00\x01", &bitmap(&[1, 2]));
    words.merge_entry(b"summer\x00\x00\x01", &bitmap(&[3]));
    words.merge_entry(b"sun\x00\x00\x02", &bitmap(&[4]));
    words.merge_entry(b"moon\x00\x00\x01", &bitmap(&[5, 6]));
    let mut chunk = Postings::new();
    chunk.merge_entry(b"moon\x00\x00\x01", &bitmap(&[6]));
    chunk.merge_entry(b"sun\x00\x00\x01", &bitmap(&[2]));

    let mut target = Postings::new();
    target.merge_entry(b"m\x00\x00\x01", &bitmap(&[5]));
    target.merge_entry(b"old\x00\x00\x07", &bitmap(&[9]));
    target.merge_entry(b"kept\x00\x00\x07", &bitmap(&[8]));

    let new_prefixes = bytes(&["su"]);
    let common_prefixes = bytes(&["m"]);
    let deleted_prefixes = bytes(&["old"]);
    update_prefix_database(
        &mut target,
        KeyShape::WordThenTail,
        &words,
        &chunk,
        &group_prefixes(&new_prefixes),
        &group_prefixes(&common_prefixes),
        &deleted_prefixes,
    );

    // A new prefix lists the documents of all its words, tail by tail.
    assert_eq!(target.get(b"su\x00\x00\x01"), Some(&bitmap(&[1, 2, 3])));
    assert_eq!(target.get(b"su\x00\x00\x02"), Some(&bitmap(&[4])));
    // A common prefix gains what the chunk holds.
    assert_eq!(target.get(b"m\x00\x00\x01"), Some(&bitmap(&[5, 6])));
    // A deleted prefix leaves, and any other key stays.
    assert_eq!(target.get(b"old\x00\x00\x07"), None);
    assert_eq!(target.get(b"kept\x00\x00\x07"), Some(&bitmap(&[8])));
    assert_eq!(target.len(), 4);
}

#[test]
fn prefixes_are_grouped_by_their_first_character() {
    let all: Vec<Vec<u8>> = ["a", "ab", "b", "\u{e8}", "\u{e8}a", "\u{e9}", "\u{4e2d}", "\u{4e2d}a"]
        .iter()
        .map(|prefix| prefix.as_bytes().to_vec())
        .collect();
    let groups = group_prefixes(&all);
    let sizes: Vec<usize> = groups.iter().map(|group| group.len()).collect();
    assert_eq!(sizes, vec![2, 1, 2, 1, 2]);
    let joined: Vec<Vec<u8>> = groups.iter().flat_map(|group| group.iter().cloned()).collect();
    assert_eq!(joined, all);
    assert_eq!(docindex::prefix::first_character(&"\u{e8}a".as_bytes().to_vec()), "\u{e8}".as_bytes());
    assert_eq!(docindex::prefix::first_character(&b"ab".to_vec()), b"a");
    assert_eq!(docindex::prefix::first_character(&vec![0xe4, 0xb8]), vec![0xe4, 0xb8]);
    assert!(group_prefixes(&Vec::new()).is_empty());
}

#[test]
fn a_facet_covers_the_fields_within_it() {
    let mut fields = FieldsIdsMap::new();
    for name in ["colour", "colour.green", "colours", "colour.green.blue", "size", "col"] {
        fields.insert(name.as_bytes()).unwrap();
    }
    let mut settings = Settings::new();
    settings.filterable_fields = bytes(&["colour"]);
    assert_eq!(settings.faceted_fields(&fields), vec![0, 1, 3]);
    assert_eq!(settings.searchable_fields_ids(&fields), vec![0, 1, 2, 3, 4, 5]);
    settings.searchable_fields = Some(bytes(&["size", "colour.green"]));
    assert_eq!(settings.searchable_fields_ids(&fields), vec![1, 3, 4]);
    assert!(docindex::settings::under(b"a.b", b"a.b.c"));
    assert!(docindex::settings::under(b"a.b", b"a.b"));
    assert!(!docindex::settings::under(b"a.b", b"a.bc"));
    assert!(!docindex::settings::under(b"a.b", b"a"));
    assert!(!docindex::settings::under(b"", b"a"));
    assert!(docindex::settings::under(b"", b".a"));
}
