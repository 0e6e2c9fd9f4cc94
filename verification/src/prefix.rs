//! The frequent prefixes of the indexed words, and the databases that list
//! documents under them.
//!
//! A prefix is frequent when enough documents hold a word that begins with
//! it. The set of frequent prefixes is computed anew after each indexing
//! run and compared with the set of the run before: the prefix databases
//! are then brought up to date with the differences only.

use crate::bitmap::{bitmap_ids, bitmap_len, bitmap_new, bitmap_union_with, lemma_ids_finite};
use crate::bytes::{copy_range, is_prefix, starts_with};
use crate::documents::DocumentId;
use crate::postings::Postings;
use crate::settings::names_contain;
use crate::sorted_map::{strictly_sorted, ByteMap};
use crate::tokenizer::words_of;
use roaring::RoaringBitmap;
use slice_group_by::GroupBy;
use vstd::prelude::*;

verus! {

/// The prefix length up to which prefixes are indexed when the
/// configuration sets no other.
pub const DEFAULT_MAX_PREFIX_LENGTH: usize = 4;

/// The number of documents that make a prefix frequent when the
/// configuration sets no other.
pub const DEFAULT_WORDS_PREFIX_THRESHOLD: u32 = 100;

/// The documents that hold a word beginning with `prefix`.
pub open spec fn prefix_docids(words: &Postings, prefix: Seq<u8>) -> Set<DocumentId> {
    Set::new(
        |id: DocumentId|
            exists|word: Seq<u8>| is_prefix(prefix, word) && #[trigger] words.docids(word).contains(id),
    )
}

/// `prefix` is frequent among `words`: it is not empty and not longer than
/// `max_length`, some word begins with it, and at least `threshold`
/// documents hold such a word.
pub open spec fn is_frequent_prefix(
    words: &Postings,
    prefix: Seq<u8>,
    threshold: nat,
    max_length: nat,
) -> bool {
    &&& 1 <= prefix.len() <= max_length
    &&& exists|word: Seq<u8>| #[trigger] words@.contains_key(word) && is_prefix(prefix, word)
    &&& prefix_docids(words, prefix).len() >= threshold
}

/// The documents that hold one of the words at the positions from `from`
/// up to `to`.
pub open spec fn run_docids(words: &Postings, from: int, to: int) -> Set<DocumentId> {
    Set::new(
        |id: DocumentId|
            exists|k: int|
                from <= k < to && 0 <= k < words.keys().len() && words.docids(
                    #[trigger] words.keys()[k],
                ).contains(id),
    )
}

/// In a sorted database, the words from `from` up to `to` are those that
/// begin with `prefix`: they begin with it, no word before them does, the
/// word after them does not, and where there is none of them the word
/// after them is not below the prefix.
pub open spec fn is_run_of(words: &Postings, prefix: Seq<u8>, from: int, to: int) -> bool {
    &&& 0 <= from <= to <= words.keys().len()
    &&& forall|k: int| from <= k < to ==> is_prefix(prefix, #[trigger] words.keys()[k])
    &&& forall|k: int| 0 <= k < from ==> !is_prefix(prefix, #[trigger] words.keys()[k])
    &&& to < words.keys().len() ==> !is_prefix(prefix, words.keys()[to])
    &&& from == to && to < words.keys().len() ==> crate::bytes::key_le(prefix, words.keys()[to])
}

/// The documents of a run are the documents of its prefix, and a run that
/// is not empty shows that a word begins with the prefix.
pub proof fn lemma_run_docids(words: &Postings, prefix: Seq<u8>, from: int, to: int)
    requires
        words.wf(),
        is_run_of(words, prefix, from, to),
    ensures
        run_docids(words, from, to) == prefix_docids(words, prefix),
        from < to ==> exists|word: Seq<u8>| #[trigger]
            words@.contains_key(word) && is_prefix(prefix, word),
{
    words.lemma_wf();
    let keys = words.keys();
    assert forall|id: DocumentId|
        run_docids(words, from, to).contains(id) == prefix_docids(words, prefix).contains(id) by {
        if prefix_docids(words, prefix).contains(id) {
            let word = choose|word: Seq<u8>|
                is_prefix(prefix, word) && #[trigger] words.docids(word).contains(id);
            assert(words@.contains_key(word));
            let k = keys.index_of(word);
            assert(keys[k] == word);
            if k > to {
                assert(crate::bytes::key_lt(keys[to], keys[k]));
                crate::bytes::lemma_key_lt_asymmetric(keys[to], keys[k]);
                if from < to {
                    assert(crate::bytes::key_lt(keys[to - 1], keys[to]));
                    crate::bytes::lemma_key_lt_asymmetric(keys[to - 1], keys[to]);
                    crate::bytes::lemma_prefix_run(prefix, keys[to - 1], keys[to], keys[k]);
                } else {
                    assert(prefix.subrange(0, prefix.len() as int) =~= prefix);
                    crate::bytes::lemma_prefix_run(prefix, prefix, keys[to], keys[k]);
                }
            }
            assert(from <= k < to);
        }
    }
    assert(run_docids(words, from, to) =~= prefix_docids(words, prefix));
    if from < to {
        assert(words@.contains_key(keys[from]));
    }
}

/// Adds up the documents of the words that begin with `prefix`, from
/// position `from` on, and tells where these words end.
fn union_of_run(words: &Postings, prefix: &[u8], from: usize) -> (found: (RoaringBitmap, usize))
    requires
        words.wf(),
        from <= words.keys().len(),
    ensures
        from <= found.1 <= words.keys().len(),
        bitmap_ids(found.0) == run_docids(words, from as int, found.1 as int),
        forall|k: int| from <= k < found.1 ==> is_prefix(prefix@, #[trigger] words.keys()[k]),
        found.1 < words.keys().len() ==> !is_prefix(prefix@, words.keys()[found.1 as int]),
{
    let mut docids = bitmap_new();
    let mut to: usize = from;
    proof {
        assert(bitmap_ids(docids) =~= run_docids(words, from as int, from as int));
    }
    while to < words.len() && starts_with(words.key_at(to).as_slice(), prefix)
        invariant
            words.wf(),
            from <= to <= words.keys().len(),
            bitmap_ids(docids) == run_docids(words, from as int, to as int),
            forall|k: int| from <= k < to ==> is_prefix(prefix@, #[trigger] words.keys()[k]),
        decreases words.keys().len() - to,
    {
        let ghost before = bitmap_ids(docids);
        bitmap_union_with(&mut docids, words.docids_at(to));
        proof {
            assert forall|id: DocumentId|
                bitmap_ids(docids).contains(id) == run_docids(words, from as int, to + 1).contains(
                    id,
                ) by {
                if before.contains(id) {
                    let k = choose|k: int|
                        from <= k < to && 0 <= k < words.keys().len() && words.docids(
                            #[trigger] words.keys()[k],
                        ).contains(id);
                    assert(from <= k < to + 1);
                }
                if run_docids(words, from as int, to + 1).contains(id) {
                    let k = choose|k: int|
                        from <= k < to + 1 && 0 <= k < words.keys().len() && words.docids(
                            #[trigger] words.keys()[k],
                        ).contains(id);
                    if k < to {
                        assert(before.contains(id));
                    }
                }
            }
            assert(bitmap_ids(docids) =~= run_docids(words, from as int, to + 1));
        }
        to += 1;
    }
    (docids, to)
}

/// The documents that hold a word beginning with `prefix`.
pub fn union_for_prefix(words: &Postings, prefix: &[u8]) -> (docids: RoaringBitmap)
    requires
        words.wf(),
    ensures
        bitmap_ids(docids) == prefix_docids(words, prefix@),
{
    // The words that begin with the prefix stand together, and none of
    // them is below the prefix.
    let from = words.lower_bound(prefix);
    let found = union_of_run(words, prefix, from);
    proof {
        assert forall|k: int| 0 <= k < from implies !is_prefix(prefix@, #[trigger] words.keys()[k]) by {
            if is_prefix(prefix@, words.keys()[k]) {
                crate::bytes::lemma_prefix_not_greater(prefix@, words.keys()[k]);
            }
        }
        lemma_run_docids(words, prefix@, from as int, found.1 as int);
    }
    found.0
}

/// Two keys begin with the same `length` bytes.
pub open spec fn share_prefix(a: Seq<u8>, b: Seq<u8>, length: int) -> bool {
    a.len() >= length && b.len() >= length && a.subrange(0, length) == b.subrange(0, length)
}

/// No word before position `at` begins with the same `length` bytes as a
/// word from `at` on.
pub open spec fn is_boundary(words: &Postings, length: int, at: int) -> bool {
    forall|a: int, b: int|
        0 <= a < at && at <= b < words.keys().len() ==> !share_prefix(
            #[trigger] words.keys()[a],
            #[trigger] words.keys()[b],
            length,
        )
}

/// Some of the first `upto` words of `words` begins with `prefix`.
pub open spec fn begins_word_upto(words: &Postings, prefix: Seq<u8>, upto: int) -> bool {
    exists|j: int| 0 <= j < upto && j < words.keys().len()
        && is_prefix(prefix, #[trigger] words.keys()[j])
}

/// The frequent prefixes of `words`.
pub fn compute_prefixes(words: &Postings, threshold: u32, max_prefix_length: usize) -> (prefixes:
    ByteMap<()>)
    requires
        words.wf(),
    ensures
        prefixes.wf(),
        forall|prefix: Seq<u8>| #[trigger]
            prefixes@.contains_key(prefix) <==> is_frequent_prefix(
                words,
                prefix,
                threshold as nat,
                max_prefix_length as nat,
            ),
{
    let mut prefixes: ByteMap<()> = ByteMap::new();
    let mut shorter: usize = 0;
    while shorter < max_prefix_length
        invariant
            words.wf(),
            prefixes.wf(),
            shorter <= max_prefix_length,
            forall|prefix: Seq<u8>| #[trigger]
                prefixes@.contains_key(prefix) <==> prefix.len() <= shorter && is_frequent_prefix(
                    words,
                    prefix,
                    threshold as nat,
                    max_prefix_length as nat,
                ),
        decreases max_prefix_length - shorter,
    {
        let length = shorter + 1;
        // The words that share their first bytes stand together: each run of
        // them is judged once.
        let mut i: usize = 0;
        while i < words.len()
            invariant
                words.wf(),
                prefixes.wf(),
                i <= words.keys().len(),
                length == shorter + 1,
                length <= max_prefix_length,
                is_boundary(words, length as int, i as int),
                forall|prefix: Seq<u8>| #[trigger]
                    prefixes@.contains_key(prefix) <==> (prefix.len() <= shorter || (prefix.len()
                        == length && begins_word_upto(words, prefix, i as int)))
                        && is_frequent_prefix(
                        words,
                        prefix,
                        threshold as nat,
                        max_prefix_length as nat,
                    ),
            decreases words.keys().len() - i,
        {
            let word = words.key_at(i);
            if word.len() < length {
                proof {
                    assert forall|prefix: Seq<u8>|
                        prefix.len() == length implies begins_word_upto(words, prefix, i + 1)
                        == begins_word_upto(words, prefix, i as int) by {
                        if begins_word_upto(words, prefix, i + 1) {
                            let j = choose|j: int|
                                0 <= j < i + 1 && j < words.keys().len() && is_prefix(
                                    prefix,
                                    #[trigger] words.keys()[j],
                                );
                            assert(j < i);
                        }
                        if begins_word_upto(words, prefix, i as int) {
                            let j = choose|j: int|
                                0 <= j < i && j < words.keys().len() && is_prefix(
                                    prefix,
                                    #[trigger] words.keys()[j],
                                );
                            assert(0 <= j < i + 1);
                        }
                    }
                }
                i += 1;
            } else {
                let prefix = copy_range(word.as_slice(), 0, length);
                let found = union_of_run(words, prefix.as_slice(), i);
                let to = found.1;
                proof {
                    let keys = words.keys();
                    words.lemma_wf();
                    assert(is_prefix(prefix@, word@));
                    assert(i < to);
                    assert forall|k: int| 0 <= k < i implies !is_prefix(prefix@, #[trigger] keys[k]) by {
                        if is_prefix(prefix@, keys[k]) {
                            assert(keys[k].subrange(0, length as int) =~= keys[i as int].subrange(
                                0,
                                length as int,
                            ));
                            assert(share_prefix(keys[k], keys[i as int], length as int));
                        }
                    }
                    lemma_run_docids(words, prefix@, i as int, to as int);
                    lemma_ids_finite(bitmap_ids(found.0));
                    assert forall|a: int, b: int| 0 <= a < to
                        && to <= b < keys.len() implies !share_prefix(
                        #[trigger] keys[a],
                        #[trigger] keys[b],
                        length as int,
                    ) by {
                        if share_prefix(keys[a], keys[b], length as int) {
                            if a >= i {
                                assert(keys[a].subrange(0, length as int) =~= prefix@);
                                assert(is_prefix(prefix@, keys[b]));
                                if b > to {
                                    assert(crate::bytes::key_lt(keys[a], keys[to as int]));
                                    assert(crate::bytes::key_lt(keys[to as int], keys[b]));
                                    crate::bytes::lemma_key_lt_asymmetric(keys[a], keys[to as int]);
                                    crate::bytes::lemma_key_lt_asymmetric(keys[to as int], keys[b]);
                                    crate::bytes::lemma_prefix_run(
                                        prefix@,
                                        keys[a],
                                        keys[to as int],
                                        keys[b],
                                    );
                                }
                            }
                        }
                    }
                }
                if bitmap_len(&found.0) >= threshold as u64 {
                    let _ = prefixes.insert(prefix, ());
                }
                proof {
                    let keys = words.keys();
                    assert forall|other: Seq<u8>| #[trigger]
                        prefixes@.contains_key(other) <==> (other.len() <= shorter || (other.len()
                            == length && begins_word_upto(words, other, to as int)))
                            && is_frequent_prefix(
                            words,
                            other,
                            threshold as nat,
                            max_prefix_length as nat,
                        ) by {
                        if other.len() == length {
                            if begins_word_upto(words, other, i as int) {
                                let j = choose|j: int|
                                    0 <= j < i && j < keys.len() && is_prefix(
                                        other,
                                        #[trigger] keys[j],
                                    );
                                assert(0 <= j < to);
                            }
                            if other == prefix@ {
                                assert(0 <= i < to && is_prefix(other, keys[i as int]));
                            }
                            if begins_word_upto(words, other, to as int) && other != prefix@ {
                                let j = choose|j: int|
                                    0 <= j < to && j < keys.len() && is_prefix(
                                        other,
                                        #[trigger] keys[j],
                                    );
                                if j >= i {
                                    assert(keys[j].subrange(0, length as int) =~= other);
                                    assert(keys[j].subrange(0, length as int) =~= prefix@);
                                }
                                assert(begins_word_upto(words, other, i as int));
                            }
                        }
                    }
                }
                i = to;
            }
        }
        proof {
            words.lemma_wf();
            assert forall|prefix: Seq<u8>| #[trigger]
                prefixes@.contains_key(prefix) <==> prefix.len() <= shorter + 1
                    && is_frequent_prefix(
                    words,
                    prefix,
                    threshold as nat,
                    max_prefix_length as nat,
                ) by {
                if prefix.len() == length && is_frequent_prefix(
                    words,
                    prefix,
                    threshold as nat,
                    max_prefix_length as nat,
                ) {
                    let word = choose|word: Seq<u8>| #[trigger]
                        words@.contains_key(word) && is_prefix(prefix, word);
                    let j = words.keys().index_of(word);
                    assert(0 <= j < i && is_prefix(prefix, words.keys()[j]));
                }
            }
        }
        shorter += 1;
    }
    prefixes
}

/// The prefixes of `left` that `right` has too, where `shared` is set, or
/// that `right` lacks, where it is not; in increasing order.
pub fn select_prefixes(left: &ByteMap<()>, right: &ByteMap<()>, shared: bool) -> (selected: Vec<
    Vec<u8>,
>)
    requires
        left.wf(),
        right.wf(),
    ensures
        strictly_sorted(words_of(selected@)),
        forall|prefix: Seq<u8>| #[trigger]
            names_contain(selected@, prefix) <==> left@.contains_key(prefix) && (
            right@.contains_key(prefix) == shared),
{
    let mut selected: Vec<Vec<u8>> = Vec::new();
    let mut i: usize = 0;
    while i < left.len()
        invariant
            left.wf(),
            right.wf(),
            i <= left.keys().len(),
            strictly_sorted(words_of(selected@)),
            forall|n: int, j: int|
                0 <= n < selected@.len() && i <= j < left.keys().len() ==> crate::bytes::key_lt(
                    (#[trigger] selected@[n])@,
                    #[trigger] left.keys()[j],
                ),
            forall|prefix: Seq<u8>| #[trigger]
                names_contain(selected@, prefix) <==> (exists|j: int|
                    0 <= j < i && #[trigger] left.keys()[j] == prefix) && (right@.contains_key(
                    prefix,
                ) == shared),
        decreases left.keys().len() - i,
    {
        let key = left.key_at(i);
        let found = right.contains_key(key.as_slice());
        let ghost before = selected@;
        if found == shared {
            selected.push(copy_range(key.as_slice(), 0, key.len()));
            proof {
                assert(key@.subrange(0, key@.len() as int) =~= key@);
                assert(selected@[before.len() as int]@ == key@);
                assert forall|a: int, b: int|
                    0 <= a < b < selected@.len() implies crate::bytes::key_lt(
                    #[trigger] words_of(selected@)[a],
                    #[trigger] words_of(selected@)[b],
                ) by {
                    if b < before.len() {
                        assert(words_of(before)[a] == before[a]@);
                        assert(words_of(before)[b] == before[b]@);
                        assert(crate::bytes::key_lt(words_of(before)[a], words_of(before)[b]));
                    } else {
                        assert(selected@[a] == before[a]);
                        assert(crate::bytes::key_lt(before[a]@, left.keys()[i as int]));
                    }
                }
                assert forall|n: int, j: int|
                    0 <= n < selected@.len() && i + 1 <= j < left.keys().len()
                    implies crate::bytes::key_lt(
                    (#[trigger] selected@[n])@,
                    #[trigger] left.keys()[j],
                ) by {
                    if n < before.len() {
                        assert(selected@[n] == before[n]);
                    } else {
                        assert(crate::bytes::key_lt(left.keys()[i as int], left.keys()[j]));
                    }
                }
            }
        }
        proof {
            assert forall|prefix: Seq<u8>| #[trigger]
                names_contain(selected@, prefix) <==> (exists|j: int|
                    0 <= j < i + 1 && #[trigger] left.keys()[j] == prefix) && (right@.contains_key(
                    prefix,
                ) == shared) by {
                if names_contain(before, prefix) {
                    let n = choose|n: int| 0 <= n < before.len() && (#[trigger] before[n])@ == prefix;
                    assert(selected@[n]@ == prefix);
                    let j = choose|j: int| 0 <= j < i && #[trigger] left.keys()[j] == prefix;
                    assert(0 <= j < i + 1 && left.keys()[j] == prefix);
                }
                if names_contain(selected@, prefix) {
                    let n = choose|n: int|
                        0 <= n < selected@.len() && (#[trigger] selected@[n])@ == prefix;
                    if n < before.len() {
                        assert(before[n]@ == prefix);
                    } else {
                        assert(0 <= i < i + 1 && left.keys()[i as int] == prefix);
                    }
                }
                if (exists|j: int| 0 <= j < i + 1 && #[trigger] left.keys()[j] == prefix) && (
                right@.contains_key(prefix) == shared) {
                    let j = choose|j: int| 0 <= j < i + 1 && #[trigger] left.keys()[j] == prefix;
                    if j < i {
                        assert(names_contain(before, prefix));
                    } else {
                        assert(selected@[before.len() as int]@ == prefix);
                    }
                }
            }
        }
        i += 1;
    }
    proof {
        assert forall|prefix: Seq<u8>| #[trigger]
            names_contain(selected@, prefix) <==> left@.contains_key(prefix) && (
            right@.contains_key(prefix) == shared) by {
            if left@.contains_key(prefix) {
                let j = left.keys().index_of(prefix);
                assert(0 <= j < i && left.keys()[j] == prefix);
            }
            if exists|j: int| 0 <= j < i && #[trigger] left.keys()[j] == prefix {
                let j = choose|j: int| 0 <= j < i && #[trigger] left.keys()[j] == prefix;
                assert(left.keys().contains(prefix));
            }
        }
    }
    selected
}

/// The groups of a grouping, one after the other.
pub open spec fn joined(groups: Seq<&[Vec<u8>]>) -> Seq<Vec<u8>>
    decreases groups.len(),
{
    if groups.len() == 0 {
        Seq::empty()
    } else {
        joined(groups.drop_last()) + groups.last()@
    }
}

/// `prefix` is in one of the groups.
pub open spec fn in_groups(groups: Seq<&[Vec<u8>]>, prefix: Seq<u8>) -> bool {
    exists|g: int, i: int|
        0 <= g < groups.len() && 0 <= i < groups[g]@.len() && (#[trigger] groups[g]@[i])@ == prefix
}

/// No group is empty, no prefix is empty, and the prefixes of a group
/// begin with the same byte.
pub open spec fn grouped_by_first_byte(groups: Seq<&[Vec<u8>]>) -> bool {
    forall|g: int, i: int|
        0 <= g < groups.len() && 0 <= i < groups[g]@.len() ==> (#[trigger] groups[g]@[i])@.len() > 0
            && groups[g]@[0]@.len() > 0 && groups[g]@[i]@[0] == groups[g]@[0]@[0]
}

/// The number of bytes of the first character of a text: as many as its
/// first byte announces in UTF-8, and no more than the text has.
pub open spec fn first_char_len(text: Seq<u8>) -> int {
    let announced: int = if text.len() == 0 {
        0
    } else if text[0] < 0xC0 {
        1
    } else if text[0] < 0xE0 {
        2
    } else if text[0] < 0xF0 {
        3
    } else {
        4
    };
    if announced <= text.len() {
        announced
    } else {
        text.len() as int
    }
}

/// The first character of a text, as the bytes that write it.
pub open spec fn first_char(text: Seq<u8>) -> Seq<u8> {
    text.subrange(0, first_char_len(text))
}

/// The groups are cut where the first character changes: the prefixes of
/// a group begin with the same character, and where one group ends and
/// the next begins the first characters differ. No group is empty.
pub open spec fn grouped_by_first_character(groups: Seq<&[Vec<u8>]>) -> bool {
    &&& forall|g: int| 0 <= g < groups.len() ==> (#[trigger] groups[g])@.len() > 0
    &&& forall|g: int, i: int|
        0 <= g < groups.len() && 0 <= i < groups[g]@.len() ==> first_char(
            (#[trigger] groups[g]@[i])@,
        ) == first_char(groups[g]@[0]@)
    &&& forall|g: int|
        0 < g < groups.len() ==> first_char((#[trigger] groups[g])@[0]@) != first_char(
            groups[g - 1]@.last()@,
        )
}

/// The first character of a prefix.
pub fn first_character(prefix: &Vec<u8>) -> (character: Vec<u8>)
    requires
        prefix@.len() > 0,
    ensures
        character@ == first_char(prefix@),
{
    let lead = prefix[0];
    let announced: usize = if lead < 0xC0 {
        1
    } else if lead < 0xE0 {
        2
    } else if lead < 0xF0 {
        3
    } else {
        4
    };
    let length = if announced <= prefix.len() {
        announced
    } else {
        prefix.len()
    };
    crate::bytes::copy_range(prefix.as_slice(), 0, length)
}

/// `GroupBy::linear_group_by_key` of the crate `slice_group_by`, with the
/// first character as the key: the slice is cut into consecutive groups,
/// none of them empty. Neighbours within a group have the same first
/// character, and where one group ends and the next begins the first
/// characters differ.
#[verifier::external_body]
fn group_by_first_character<'a>(prefixes: &'a Vec<Vec<u8>>) -> (groups: Vec<&'a [Vec<u8>]>)
    requires
        forall|i: int| 0 <= i < prefixes@.len() ==> (#[trigger] prefixes@[i])@.len() > 0,
    ensures
        joined(groups@) == prefixes@,
        forall|g: int| 0 <= g < groups@.len() ==> (#[trigger] groups@[g])@.len() > 0,
        forall|g: int, i: int|
            0 <= g < groups@.len() && 0 < i < groups@[g]@.len() ==> first_char(
                (#[trigger] groups@[g]@[i])@,
            ) == first_char(groups@[g]@[i - 1]@),
        forall|g: int|
            0 < g < groups@.len() ==> first_char((#[trigger] groups@[g])@[0]@) != first_char(
                groups@[g - 1]@.last()@,
            ),
{
    prefixes.as_slice().linear_group_by_key(|prefix| first_character(prefix)).collect()
}

/// What is in the groups is what is in their sequence.
pub proof fn lemma_joined_members(groups: Seq<&[Vec<u8>]>, prefix: Seq<u8>)
    ensures
        in_groups(groups, prefix) <==> names_contain(joined(groups), prefix),
    decreases groups.len(),
{
    if groups.len() > 0 {
        let earlier = groups.drop_last();
        let last = groups.last()@;
        lemma_joined_members(earlier, prefix);
        let all = joined(groups);
        let head = joined(earlier);
        if in_groups(groups, prefix) {
            let (g, i) = choose|g: int, i: int|
                0 <= g < groups.len() && 0 <= i < groups[g]@.len() && (#[trigger] groups[g]@[i])@
                    == prefix;
            if g < groups.len() - 1 {
                assert(earlier[g] == groups[g]);
                assert(in_groups(earlier, prefix));
                let n = choose|n: int| 0 <= n < head.len() && (#[trigger] head[n])@ == prefix;
                assert(all[n]@ == prefix);
            } else {
                assert(all[head.len() + i]@ == prefix);
            }
        }
        if names_contain(all, prefix) {
            let n = choose|n: int| 0 <= n < all.len() && (#[trigger] all[n])@ == prefix;
            if n < head.len() {
                assert(head[n]@ == prefix);
                assert(in_groups(earlier, prefix));
                let (g, i) = choose|g: int, i: int|
                    0 <= g < earlier.len() && 0 <= i < earlier[g]@.len() && (
                    #[trigger] earlier[g]@[i])@ == prefix;
                assert(groups[g] == earlier[g]);
                assert(groups[g]@[i]@ == prefix);
            } else {
                assert(groups[groups.len() - 1]@[n - head.len()]@ == prefix);
            }
        }
    }
}

/// In a group whose neighbours share their first character, every
/// prefix begins with the character of the first.
pub proof fn lemma_group_shares_character(group: Seq<Vec<u8>>, i: int)
    requires
        0 <= i < group.len(),
        forall|j: int|
            0 < j < group.len() ==> first_char((#[trigger] group[j])@) == first_char(group[j - 1]@),
    ensures
        first_char(group[i]@) == first_char(group[0]@),
    decreases i,
{
    if i > 0 {
        lemma_group_shares_character(group, i - 1);
    }
}

/// Texts that begin with the same character begin with the same byte.
pub proof fn lemma_first_char_byte(a: Seq<u8>, b: Seq<u8>)
    requires
        a.len() > 0,
        b.len() > 0,
        first_char(a) == first_char(b),
    ensures
        a[0] == b[0],
{
    assert(first_char(a)[0] == a[0]);
    assert(first_char(b)[0] == b[0]);
}

/// Cuts a sorted list of prefixes into groups by their first character:
/// the groups follow one another as the prefixes do, and a new group
/// begins wherever the first character changes.
pub fn group_prefixes<'a>(prefixes: &'a Vec<Vec<u8>>) -> (groups: Vec<&'a [Vec<u8>]>)
    requires
        forall|i: int| 0 <= i < prefixes@.len() ==> (#[trigger] prefixes@[i])@.len() > 0,
    ensures
        joined(groups@) == prefixes@,
        grouped_by_first_character(groups@),
        grouped_by_first_byte(groups@),
        forall|prefix: Seq<u8>| #[trigger]
            in_groups(groups@, prefix) <==> names_contain(prefixes@, prefix),
{
    let groups = group_by_first_character(prefixes);
    proof {
        assert forall|prefix: Seq<u8>| #[trigger]
            in_groups(groups@, prefix) <==> names_contain(prefixes@, prefix) by {
            lemma_joined_members(groups@, prefix);
        }
        assert forall|g: int, i: int|
            0 <= g < groups@.len() && 0 <= i < groups@[g]@.len() implies first_char(
            (#[trigger] groups@[g]@[i])@,
        ) == first_char(groups@[g]@[0]@) by {
            lemma_group_shares_character(groups@[g]@, i);
        }
        assert forall|g: int, i: int|
            0 <= g < groups@.len() && 0 <= i < groups@[g]@.len() implies (
            #[trigger] groups@[g]@[i])@.len() > 0 && groups@[g]@[0]@.len() > 0 && groups@[g]@[i]@[0]
            == groups@[g]@[0]@[0] by {
            assert(in_groups(groups@, groups@[g]@[i]@));
            assert(in_groups(groups@, groups@[g]@[0]@));
            let n = choose|n: int|
                0 <= n < prefixes@.len() && (#[trigger] prefixes@[n])@ == groups@[g]@[i]@;
            let m = choose|m: int|
                0 <= m < prefixes@.len() && (#[trigger] prefixes@[m])@ == groups@[g]@[0]@;
            lemma_first_char_byte(groups@[g]@[i]@, groups@[g]@[0]@);
        }
    }
    groups
}

} // verus!
