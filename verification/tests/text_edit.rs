use docindex::text_edit::{check_disjoint_and_sort, Indel, TextEdit, TextEditBuilder, TextRange};

fn range(start: u32, end: u32) -> TextRange {
    TextRange::new(start, end)
}

#[test]
fn test_apply() {
    let mut text = "_11h1_2222_xx3333_4444_6666".to_string();
    let mut builder = TextEditBuilder::default();
    builder.replace(range(3, 4), "1".to_string());
    builder.delete(range(11, 13));
    builder.insert(22, "_5555".to_string());

    let text_edit = builder.finish();
    assert!(text_edit.applies_to(&text));
    text_edit.apply(&mut text);

    assert_eq!(text, "_1111_2222_3333_4444_5555_6666")
}

#[test]
fn test_union() {
    let mut edit1 = TextEdit::delete(range(7, 11));
    let mut builder = TextEditBuilder::default();
    builder.delete(range(1, 5));
    builder.delete(range(13, 17));

    let edit2 = builder.finish();
    assert!(edit1.union(edit2).is_ok());
    assert_eq!(edit1.len(), 3);
}

#[test]
fn test_union_panics() {
    let mut edit1 = TextEdit::delete(range(7, 11));
    let edit2 = TextEdit::delete(range(9, 13));
    assert!(edit1.union(edit2).is_err());
}

#[test]
fn a_replacement_splices_the_bytes_of_a_text() {
    let mut text = "héllo wörld".to_string();
    let indel = Indel::replace(range(7, 13), "Welt".to_string());
    assert!(indel.applies_to(&text));
    indel.apply(&mut text);
    assert_eq!(text, "héllo Welt");

    let mut text = "abc".to_string();
    Indel::insert(3, "dé".to_string()).apply(&mut text);
    assert_eq!(text, "abcdé");
    Indel::delete(range(0, 1)).apply(&mut text);
    assert_eq!(text, "bcdé");
}

#[test]
fn a_replacement_must_not_cut_a_character() {
    let text = "héllo".to_string();
    assert!(!Indel::delete(range(1, 2)).applies_to(&text));
    assert!(!Indel::delete(range(2, 4)).applies_to(&text));
    assert!(Indel::delete(range(1, 3)).applies_to(&text));
    assert!(!Indel::delete(range(4, 7)).applies_to(&text));
    assert!(Indel::insert(6, String::new()).applies_to(&text));
    assert!(!Indel { insert: String::new(), delete: TextRange { start: 3, end: 1 } }.applies_to(&text));
}

#[test]
fn an_edit_that_overlaps_itself_does_not_apply() {
    let mut builder = TextEditBuilder::default();
    builder.delete(range(1, 3));
    builder.delete(range(1, 3));
    let edit = builder.finish();
    assert_eq!(edit.len(), 2);
    assert!(!edit.applies_to("abcdef"));

    let edit = TextEdit::delete(range(2, 9));
    assert!(!edit.applies_to("abcdef"));
    assert!(edit.applies_to("abcdefghi"));
}

#[test]
fn replacements_are_sorted_by_their_range_and_keep_their_order() {
    let mut indels = vec![
        Indel::insert(9, "c".to_string()),
        Indel::delete(range(4, 6)),
        Indel::insert(9, "a".to_string()),
        Indel::replace(range(0, 2), "x".to_string()),
        Indel::delete(range(4, 5)),
        Indel::insert(9, "b".to_string()),
    ];
    assert!(!check_disjoint_and_sort(&mut indels));
    let ranges: Vec<(u32, u32)> = indels.iter().map(|i| (i.delete.start, i.delete.end)).collect();
    assert_eq!(ranges, vec![(0, 2), (4, 5), (4, 6), (9, 9), (9, 9), (9, 9)]);
    let inserted: Vec<&str> = indels.iter().map(|i| i.insert.as_str()).collect();
    assert_eq!(inserted, vec!["x", "", "", "c", "a", "b"]);

    let mut indels = vec![
        Indel::delete(range(4, 6)),
        Indel::insert(4, "a".to_string()),
        Indel::delete(range(0, 4)),
    ];
    assert!(check_disjoint_and_sort(&mut indels));
    let ranges: Vec<(u32, u32)> = indels.iter().map(|i| (i.delete.start, i.delete.end)).collect();
    assert_eq!(ranges, vec![(0, 4), (4, 4), (4, 6)]);

    let mut indels: Vec<Indel> = Vec::new();
    assert!(check_disjoint_and_sort(&mut indels));
    assert!(indels.is_empty());
}

#[test]
fn equal_replacements_are_compatible() {
    let mut indels = vec![
        Indel::replace(range(2, 4), "x".to_string()),
        Indel::replace(range(2, 4), "x".to_string()),
    ];
    assert!(check_disjoint_and_sort(&mut indels));
    let mut indels = vec![
        Indel::replace(range(2, 4), "x".to_string()),
        Indel::replace(range(2, 4), "y".to_string()),
    ];
    assert!(!check_disjoint_and_sort(&mut indels));
}

#[test]
fn a_union_drops_repeated_deletions_and_keeps_insertions() {
    let mut edit = TextEdit::replace(range(2, 4), "x".to_string());
    let mut builder = TextEdit::builder();
    builder.replace(range(2, 4), "x".to_string());
    builder.insert(7, "y".to_string());
    assert!(edit.union(builder.finish()).is_ok());
    assert_eq!(edit.len(), 2);

    let mut edit = TextEdit::insert(7, "y".to_string());
    assert!(edit.union(TextEdit::insert(7, "y".to_string())).is_ok());
    assert_eq!(edit.len(), 2);
    let mut text = "0123456789".to_string();
    assert!(edit.applies_to(&text));
    edit.apply(&mut text);
    assert_eq!(text, "0123456yy789");
}

#[test]
fn a_failed_union_changes_nothing() {
    let mut edit = TextEdit::delete(range(7, 11));
    let other = TextEdit::replace(range(9, 13), "z".to_string());
    match edit.union(other) {
        Ok(()) => panic!("the edits overlap"),
        Err(returned) => {
            assert_eq!(returned.len(), 1);
            assert_eq!(returned.as_slice()[0], Indel::replace(range(9, 13), "z".to_string()));
        }
    }
    assert_eq!(edit.len(), 1);
    assert_eq!(edit.as_slice()[0], Indel::delete(range(7, 11)));
}

#[test]
fn an_offset_moves_with_the_replacements_before_it() {
    let mut builder = TextEditBuilder::default();
    builder.replace(range(3, 4), "1".to_string());
    builder.delete(range(11, 13));
    builder.insert(22, "_5555".to_string());
    let edit = builder.finish();

    assert_eq!(edit.apply_to_offset(0), Some(0));
    assert_eq!(edit.apply_to_offset(3), Some(3));
    assert_eq!(edit.apply_to_offset(4), Some(4));
    assert_eq!(edit.apply_to_offset(11), Some(11));
    assert_eq!(edit.apply_to_offset(12), None);
    assert_eq!(edit.apply_to_offset(13), Some(11));
    assert_eq!(edit.apply_to_offset(22), Some(20));
    assert_eq!(edit.apply_to_offset(23), Some(26));

    let edit = TextEdit::replace(range(2, 6), "a longer text".to_string());
    assert_eq!(edit.apply_to_offset(2), Some(2));
    assert_eq!(edit.apply_to_offset(4), None);
    assert_eq!(edit.apply_to_offset(6), Some(15));
    assert_eq!(TextEdit::default().apply_to_offset(5), Some(5));
}

#[test]
fn a_builder_tells_which_offsets_it_touches() {
    let mut builder = TextEdit::builder();
    assert!(builder.is_empty());
    assert!(!builder.invalidates_offset(3));
    builder.delete(range(3, 5));
    builder.insert(9, "x".to_string());
    assert!(!builder.is_empty());
    assert!(!builder.invalidates_offset(2));
    assert!(builder.invalidates_offset(3));
    assert!(builder.invalidates_offset(4));
    assert!(builder.invalidates_offset(5));
    assert!(!builder.invalidates_offset(6));
    assert!(builder.invalidates_offset(9));
}

#[test]
fn an_edit_hands_out_its_replacements_in_order() {
    let mut builder = TextEdit::builder();
    builder.insert(9, "x".to_string());
    builder.delete(range(3, 5));
    let edit = builder.finish();
    assert!(!edit.is_empty());
    let starts: Vec<u32> = edit.iter().map(|indel| indel.delete.start).collect();
    assert_eq!(starts, vec![3, 9]);
    assert!(TextEdit::default().is_empty());
    assert_eq!(TextEdit::default().len(), 0);
}

#[test]
fn a_range_knows_its_ends() {
    let r = range(3, 8);
    assert_eq!(r.start(), 3);
    assert_eq!(r.end(), 8);
    assert_eq!(r.len(), 5);
    assert!(!r.is_empty());
    assert!(TextRange::empty(4).is_empty());
    assert!(r.contains_inclusive(8));
    assert!(!r.contains_inclusive(9));
}
