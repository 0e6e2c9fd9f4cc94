//! The prefix databases: documents listed under the frequent prefixes of
//! the words of a posting database.
//!
//! A key of a posting database is a word, or a word before a tail, or a
//! word after a head. The prefix database of such a database lists, under
//! the key that a frequent prefix makes with a head and a tail, the
//! documents of every key that a word beginning with the prefix makes
//! with the same head and tail.

use crate::bitmap::bitmap_ids;
use crate::bytes::{copy_range, is_prefix, starts_with};
use crate::documents::DocumentId;
use crate::postings::Postings;
use crate::prefix::{grouped_by_first_byte, in_groups};
use crate::settings::{contains_name, names_contain};
use roaring::RoaringBitmap;
use vstd::prelude::*;

verus! {

/// The number of bytes of the tail of a key: a zero byte and two bytes
/// for a field id or a position.
pub const TAIL_LENGTH: usize = 3;

/// Where the word of a key stands.
#[derive(Clone, Copy, Debug, PartialEq, Eq, Structural)]
pub enum KeyShape {
    /// The key is the word.
    Word,
    /// The word is followed by a zero byte and two more bytes.
    WordThenTail,
    /// The word follows the first zero byte after the first byte.
    HeadThenWord,
}

/// The position of the first zero byte of `key` from `from` on; the length
/// of the key where there is none.
pub open spec fn first_zero(key: Seq<u8>, from: int) -> int
    decreases key.len() - from,
{
    if from < 0 || from >= key.len() {
        key.len() as int
    } else if key[from] == 0 {
        from
    } else {
        first_zero(key, from + 1)
    }
}

/// Where the word of `key` begins and ends, if the key has the shape.
pub open spec fn word_range(shape: KeyShape, key: Seq<u8>) -> Option<(int, int)> {
    match shape {
        KeyShape::Word => Some((0, key.len() as int)),
        KeyShape::WordThenTail => if key.len() >= TAIL_LENGTH && key[key.len() - TAIL_LENGTH] == 0 {
            Some((0, key.len() - TAIL_LENGTH))
        } else {
            None
        },
        KeyShape::HeadThenWord => if first_zero(key, 1) < key.len() {
            Some((first_zero(key, 1) + 1, key.len() as int))
        } else {
            None
        },
    }
}

/// The word of `key`, if the key has the shape.
pub open spec fn key_word(shape: KeyShape, key: Seq<u8>) -> Option<Seq<u8>> {
    match word_range(shape, key) {
        Some(range) => Some(key.subrange(range.0, range.1)),
        None => None,
    }
}

/// `key` with `word` in place of what stands from `start` up to `end`.
pub open spec fn with_word(key: Seq<u8>, start: int, end: int, word: Seq<u8>) -> Seq<u8> {
    key.subrange(0, start) + word + key.subrange(end, key.len() as int)
}

/// The documents of `source_key` are listed under `target_key`: the two
/// keys have the same head and the same tail, and the word of the source
/// begins with the word of the target.
pub open spec fn lists_under(shape: KeyShape, source_key: Seq<u8>, target_key: Seq<u8>) -> bool {
    match (word_range(shape, source_key), word_range(shape, target_key)) {
        (Some(from), Some(to)) => {
            &&& from.0 == to.0
            &&& source_key.subrange(0, from.0) == target_key.subrange(0, to.0)
            &&& source_key.subrange(from.1, source_key.len() as int) == target_key.subrange(
                to.1,
                target_key.len() as int,
            )
            &&& is_prefix(
                target_key.subrange(to.0, to.1),
                source_key.subrange(from.0, from.1),
            )
        },
        _ => false,
    }
}

/// The documents that `source` lists under the keys whose documents go
/// under `target_key`.
pub open spec fn prefix_docids_of(shape: KeyShape, source: &Postings, target_key: Seq<u8>) -> Set<
    DocumentId,
> {
    Set::new(
        |id: DocumentId|
            exists|key: Seq<u8>|
                lists_under(shape, key, target_key) && #[trigger] source.docids(key).contains(id),
    )
}

/// The same, as far as the first `upto` keys of `source` go.
pub open spec fn prefix_docids_of_upto(
    shape: KeyShape,
    source: &Postings,
    target_key: Seq<u8>,
    upto: int,
) -> Set<DocumentId> {
    Set::new(
        |id: DocumentId|
            exists|j: int|
                0 <= j < upto && j < source.keys().len() && lists_under(
                    shape,
                    #[trigger] source.keys()[j],
                    target_key,
                ) && source.docids(source.keys()[j]).contains(id),
    )
}

/// Taken over all keys, `prefix_docids_of_upto` is `prefix_docids_of`.
pub proof fn lemma_prefix_docids_of_all(shape: KeyShape, source: &Postings, target_key: Seq<u8>)
    requires
        source.wf(),
    ensures
        prefix_docids_of_upto(shape, source, target_key, source.keys().len() as int)
            == prefix_docids_of(shape, source, target_key),
{
    source.lemma_wf();
    assert forall|id: DocumentId|
        prefix_docids_of_upto(shape, source, target_key, source.keys().len() as int).contains(id)
            == prefix_docids_of(shape, source, target_key).contains(id) by {
        if prefix_docids_of(shape, source, target_key).contains(id) {
            let key = choose|key: Seq<u8>|
                lists_under(shape, key, target_key) && #[trigger] source.docids(key).contains(id);
            assert(source@.contains_key(key));
            let j = source.keys().index_of(key);
            assert(0 <= j < source.keys().len() && source.keys()[j] == key);
        }
    }
    assert(prefix_docids_of_upto(shape, source, target_key, source.keys().len() as int)
        =~= prefix_docids_of(shape, source, target_key));
}

/// The first zero byte stands at or after the position from which it is
/// sought, and no zero byte stands between the two.
pub proof fn lemma_first_zero(key: Seq<u8>, from: int)
    requires
        0 <= from <= key.len(),
    ensures
        from <= first_zero(key, from) <= key.len(),
        first_zero(key, from) < key.len() ==> key[first_zero(key, from)] == 0,
        forall|i: int| from <= i < first_zero(key, from) ==> key[i] != 0,
    decreases key.len() - from,
{
    if from < key.len() && key[from] != 0 {
        lemma_first_zero(key, from + 1);
    }
}

/// A zero byte before which no zero byte stands is the first.
pub proof fn lemma_first_zero_is(key: Seq<u8>, from: int, at: int)
    requires
        0 <= from <= at < key.len(),
        key[at] == 0,
        forall|i: int| from <= i < at ==> key[i] != 0,
    ensures
        first_zero(key, from) == at,
    decreases at - from,
{
    if from < at {
        lemma_first_zero_is(key, from + 1, at);
    }
}

/// The key that a prefix of the word of `key` makes with the head and the
/// tail of `key` has its word where `key` has it, and the documents of
/// `key` are listed under it.
pub proof fn lemma_target_of(shape: KeyShape, key: Seq<u8>, prefix: Seq<u8>)
    requires
        word_range(shape, key).is_some(),
        is_prefix(prefix, key_word(shape, key).unwrap()),
    ensures
        word_range(shape, key).unwrap().0 <= word_range(shape, key).unwrap().1 <= key.len(),
        0 <= word_range(shape, key).unwrap().0,
        word_range(
            shape,
            with_word(
                key,
                word_range(shape, key).unwrap().0,
                word_range(shape, key).unwrap().1,
                prefix,
            ),
        ) == Some(
            (word_range(shape, key).unwrap().0, word_range(shape, key).unwrap().0 + prefix.len()),
        ),
        lists_under(
            shape,
            key,
            with_word(
                key,
                word_range(shape, key).unwrap().0,
                word_range(shape, key).unwrap().1,
                prefix,
            ),
        ),
{
    let range = word_range(shape, key).unwrap();
    let target = with_word(key, range.0, range.1, prefix);
    lemma_first_zero(key, if key.len() >= 1 {
        1
    } else {
        0
    });
    if shape == KeyShape::HeadThenWord {
        let zero = first_zero(key, 1);
        assert(target[zero] == key[zero]);
        assert forall|i: int| 1 <= i < zero implies target[i] != 0 by {
            assert(target[i] == key[i]);
        }
        lemma_first_zero_is(target, 1, zero);
    } else if shape == KeyShape::WordThenTail {
        assert(target[target.len() - TAIL_LENGTH] == key[key.len() - TAIL_LENGTH]);
    }
    let to = (range.0, range.0 + prefix.len());
    assert(word_range(shape, target) == Some(to));
    assert(key.subrange(0, range.0) =~= target.subrange(0, to.0));
    assert(key.subrange(range.1, key.len() as int) =~= target.subrange(
        to.1,
        target.len() as int,
    ));
    assert(target.subrange(to.0, to.1) =~= prefix);
}

/// A key under which the documents of `key` are listed is made of the
/// head and the tail of `key` and of its own word.
pub proof fn lemma_listed_target(shape: KeyShape, key: Seq<u8>, target: Seq<u8>)
    requires
        lists_under(shape, key, target),
    ensures
        target == with_word(
            key,
            word_range(shape, key).unwrap().0,
            word_range(shape, key).unwrap().1,
            key_word(shape, target).unwrap(),
        ),
        is_prefix(key_word(shape, target).unwrap(), key_word(shape, key).unwrap()),
{
    let from = word_range(shape, key).unwrap();
    let to = word_range(shape, target).unwrap();
    lemma_first_zero(target, if target.len() >= 1 {
        1
    } else {
        0
    });
    assert(target =~= target.subrange(0, to.0) + target.subrange(to.0, to.1) + target.subrange(
        to.1,
        target.len() as int,
    ));
}

/// Where the word of `key` begins and ends, if the key has the shape.
pub fn find_word(shape: KeyShape, key: &[u8]) -> (range: Option<(usize, usize)>)
    ensures
        match range {
            Some((start, end)) => word_range(shape, key@) == Some((start as int, end as int))
                && start <= end <= key@.len(),
            None => word_range(shape, key@).is_none(),
        },
{
    match shape {
        KeyShape::Word => Some((0, key.len())),
        KeyShape::WordThenTail => {
            if key.len() >= TAIL_LENGTH && key[key.len() - TAIL_LENGTH] == 0 {
                Some((0, key.len() - TAIL_LENGTH))
            } else {
                None
            }
        },
        KeyShape::HeadThenWord => {
            if key.len() == 0 {
                return None;
            }
            let mut at: usize = 1;
            while at < key.len() && key[at] != 0
                invariant
                    1 <= at <= key@.len(),
                    first_zero(key@, 1) == first_zero(key@, at as int),
                decreases key@.len() - at,
            {
                at += 1;
            }
            if at < key.len() {
                Some((at + 1, key.len()))
            } else {
                None
            }
        },
    }
}

fn make_target(key: &[u8], start: usize, end: usize, prefix: &[u8]) -> (target: Vec<u8>)
    requires
        start <= end <= key@.len(),
    ensures
        target@ == with_word(key@, start as int, end as int, prefix@),
{
    let mut target = copy_range(key, 0, start);
    let mut i: usize = 0;
    while i < prefix.len()
        invariant
            i <= prefix@.len(),
            target@ == key@.subrange(0, start as int) + prefix@.subrange(0, i as int),
        decreases prefix@.len() - i,
    {
        target.push(prefix[i]);
        proof {
            assert(target@ =~= key@.subrange(0, start as int) + prefix@.subrange(0, i + 1));
        }
        i += 1;
    }
    let mut j: usize = end;
    proof {
        assert(prefix@.subrange(0, i as int) =~= prefix@);
        assert(target@ =~= key@.subrange(0, start as int) + prefix@ + key@.subrange(
            end as int,
            end as int,
        ));
    }
    while j < key.len()
        invariant
            end <= j <= key@.len(),
            target@ == key@.subrange(0, start as int) + prefix@ + key@.subrange(
                end as int,
                j as int,
            ),
        decreases key@.len() - j,
    {
        target.push(key[j]);
        proof {
            assert(target@ =~= key@.subrange(0, start as int) + prefix@ + key@.subrange(
                end as int,
                j + 1,
            ));
        }
        j += 1;
    }
    target
}

/// `target` is the key that one of `prefixes` makes with the head and the
/// tail of `key`, whose word begins with that prefix.
pub open spec fn is_target_among(
    key: Seq<u8>,
    start: int,
    end: int,
    prefixes: Seq<Vec<u8>>,
    target: Seq<u8>,
) -> bool {
    exists|i: int|
        0 <= i < prefixes.len() && is_prefix((#[trigger] prefixes[i])@, key.subrange(start, end))
            && target == with_word(key, start, end, prefixes[i]@)
}

/// The same, for the prefixes of the first `upto` groups.
pub open spec fn is_target_in_groups(
    key: Seq<u8>,
    start: int,
    end: int,
    groups: Seq<&[Vec<u8>]>,
    upto: int,
    target: Seq<u8>,
) -> bool {
    exists|g: int|
        0 <= g < upto && g < groups.len() && #[trigger] is_target_among(
            key,
            start,
            end,
            groups[g]@,
            target,
        )
}

fn merge_key_into_group(
    target: &mut Postings,
    key: &[u8],
    start: usize,
    end: usize,
    docids: &RoaringBitmap,
    group: &[Vec<u8>],
)
    requires
        old(target).wf(),
        start <= end <= key@.len(),
    ensures
        final(target).wf(),
        forall|listed: Seq<u8>| #[trigger]
            final(target).docids(listed) == if is_target_among(
                key@,
                start as int,
                end as int,
                group@,
                listed,
            ) {
                old(target).docids(listed).union(bitmap_ids(*docids))
            } else {
                old(target).docids(listed)
            },
{
    let ghost word = key@.subrange(start as int, end as int);
    let word_bytes = copy_range(key, start, end);
    let mut i: usize = 0;
    while i < group.len()
        invariant
            target.wf(),
            i <= group@.len(),
            start <= end <= key@.len(),
            word_bytes@ == word,
            word == key@.subrange(start as int, end as int),
            forall|listed: Seq<u8>| #[trigger]
                target.docids(listed) == if is_target_among(
                    key@,
                    start as int,
                    end as int,
                    group@.subrange(0, i as int),
                    listed,
                ) {
                    old(target).docids(listed).union(bitmap_ids(*docids))
                } else {
                    old(target).docids(listed)
                },
        decreases group@.len() - i,
    {
        let ghost before = *target;
        let ghost shorter = group@.subrange(0, i as int);
        let ghost longer = group@.subrange(0, i + 1);
        let matches = starts_with(word_bytes.as_slice(), group[i].as_slice());
        let ghost made = with_word(key@, start as int, end as int, group@[i as int]@);
        if matches {
            let listed = make_target(key, start, end, group[i].as_slice());
            target.merge_entry(listed.as_slice(), docids);
        }
        proof {
            assert forall|listed: Seq<u8>| #[trigger]
                target.docids(listed) == if is_target_among(
                    key@,
                    start as int,
                    end as int,
                    longer,
                    listed,
                ) {
                    old(target).docids(listed).union(bitmap_ids(*docids))
                } else {
                    old(target).docids(listed)
                } by {
                assert(before.docids(listed) == if is_target_among(
                    key@,
                    start as int,
                    end as int,
                    shorter,
                    listed,
                ) {
                    old(target).docids(listed).union(bitmap_ids(*docids))
                } else {
                    old(target).docids(listed)
                });
                if is_target_among(key@, start as int, end as int, shorter, listed) {
                    let n = choose|n: int|
                        0 <= n < shorter.len() && is_prefix((#[trigger] shorter[n])@, word) && listed
                            == with_word(key@, start as int, end as int, shorter[n]@);
                    assert(longer[n] == shorter[n]);
                }
                if matches && listed == made {
                    assert(longer[i as int] == group@[i as int]);
                    assert(old(target).docids(listed).union(bitmap_ids(*docids)).union(
                        bitmap_ids(*docids),
                    ) =~= old(target).docids(listed).union(bitmap_ids(*docids)));
                }
                if is_target_among(key@, start as int, end as int, longer, listed) {
                    let n = choose|n: int|
                        0 <= n < longer.len() && is_prefix((#[trigger] longer[n])@, word) && listed
                            == with_word(key@, start as int, end as int, longer[n]@);
                    if n < i {
                        assert(shorter[n] == longer[n]);
                    } else {
                        assert(longer[n] == group@[i as int]);
                    }
                }
            }
        }
        i += 1;
    }
    proof {
        assert(group@.subrange(0, i as int) =~= group@);
    }
}

fn merge_key_into_groups(
    target: &mut Postings,
    key: &[u8],
    start: usize,
    end: usize,
    docids: &RoaringBitmap,
    groups: &Vec<&[Vec<u8>]>,
)
    requires
        old(target).wf(),
        start <= end <= key@.len(),
        grouped_by_first_byte(groups@),
    ensures
        final(target).wf(),
        forall|listed: Seq<u8>| #[trigger]
            final(target).docids(listed) == if is_target_in_groups(
                key@,
                start as int,
                end as int,
                groups@,
                groups@.len() as int,
                listed,
            ) {
                old(target).docids(listed).union(bitmap_ids(*docids))
            } else {
                old(target).docids(listed)
            },
{
    let ghost word = key@.subrange(start as int, end as int);
    if start == end {
        proof {
            assert forall|listed: Seq<u8>| !is_target_in_groups(
                key@,
                start as int,
                end as int,
                groups@,
                groups@.len() as int,
                listed,
            ) by {
                if is_target_in_groups(
                    key@,
                    start as int,
                    end as int,
                    groups@,
                    groups@.len() as int,
                    listed,
                ) {
                    let g = choose|g: int|
                        0 <= g < groups@.len() && #[trigger] is_target_among(
                            key@,
                            start as int,
                            end as int,
                            groups@[g]@,
                            listed,
                        );
                    let i = choose|i: int|
                        0 <= i < groups@[g]@.len() && is_prefix(
                            (#[trigger] groups@[g]@[i])@,
                            word,
                        ) && listed == with_word(
                            key@,
                            start as int,
                            end as int,
                            groups@[g]@[i]@,
                        );
                    assert(groups@[g]@[i]@.len() > 0);
                }
            }
        }
        return;
    }
    let first = key[start];
    let mut g: usize = 0;
    while g < groups.len()
        invariant
            target.wf(),
            g <= groups@.len(),
            start < end <= key@.len(),
            first == key@[start as int],
            word == key@.subrange(start as int, end as int),
            grouped_by_first_byte(groups@),
            forall|listed: Seq<u8>| #[trigger]
                target.docids(listed) == if is_target_in_groups(
                    key@,
                    start as int,
                    end as int,
                    groups@,
                    g as int,
                    listed,
                ) {
                    old(target).docids(listed).union(bitmap_ids(*docids))
                } else {
                    old(target).docids(listed)
                },
        decreases groups@.len() - g,
    {
        let ghost before = *target;
        let group = groups[g];
        let same_byte = group.len() > 0 && group[0].len() > 0 && group[0][0] == first;
        if same_byte {
            merge_key_into_group(target, key, start, end, docids, group);
        }
        proof {
            assert forall|listed: Seq<u8>| #[trigger]
                target.docids(listed) == if is_target_in_groups(
                    key@,
                    start as int,
                    end as int,
                    groups@,
                    g + 1,
                    listed,
                ) {
                    old(target).docids(listed).union(bitmap_ids(*docids))
                } else {
                    old(target).docids(listed)
                } by {
                assert(before.docids(listed) == if is_target_in_groups(
                    key@,
                    start as int,
                    end as int,
                    groups@,
                    g as int,
                    listed,
                ) {
                    old(target).docids(listed).union(bitmap_ids(*docids))
                } else {
                    old(target).docids(listed)
                });
                let here = is_target_among(key@, start as int, end as int, group@, listed);
                if is_target_in_groups(key@, start as int, end as int, groups@, g as int, listed) {
                    let a = choose|a: int|
                        0 <= a < g && a < groups@.len() && #[trigger] is_target_among(
                            key@,
                            start as int,
                            end as int,
                            groups@[a]@,
                            listed,
                        );
                    assert(0 <= a < g + 1);
                }
                if here {
                    assert(groups@[g as int]@ == group@);
                    let i = choose|i: int|
                        0 <= i < group@.len() && is_prefix((#[trigger] group@[i])@, word) && listed
                            == with_word(key@, start as int, end as int, group@[i]@);
                    assert(groups@[g as int]@[i]@.len() > 0);
                    assert(group@[i]@[0] == word.subrange(0, group@[i]@.len() as int)[0]);
                    assert(same_byte);
                    assert(is_target_in_groups(
                        key@,
                        start as int,
                        end as int,
                        groups@,
                        g + 1,
                        listed,
                    ));
                    assert(old(target).docids(listed).union(bitmap_ids(*docids)).union(
                        bitmap_ids(*docids),
                    ) =~= old(target).docids(listed).union(bitmap_ids(*docids)));
                }
                if is_target_in_groups(key@, start as int, end as int, groups@, g + 1, listed) {
                    let a = choose|a: int|
                        0 <= a < g + 1 && a < groups@.len() && #[trigger] is_target_among(
                            key@,
                            start as int,
                            end as int,
                            groups@[a]@,
                            listed,
                        );
                    if a < g {
                        assert(is_target_in_groups(
                            key@,
                            start as int,
                            end as int,
                            groups@,
                            g as int,
                            listed,
                        ));
                    } else {
                        assert(here);
                    }
                }
            }
        }
        g += 1;
    }
}

/// What `source` adds to the documents of `listed`: the documents of the
/// keys that are listed under it, where its word is one of the prefixes.
pub open spec fn prefix_gain(
    shape: KeyShape,
    source: &Postings,
    groups: Seq<&[Vec<u8>]>,
    listed: Seq<u8>,
    upto: int,
) -> Set<DocumentId> {
    match key_word(shape, listed) {
        Some(prefix) => if in_groups(groups, prefix) {
            prefix_docids_of_upto(shape, source, listed, upto)
        } else {
            Set::empty()
        },
        None => Set::empty(),
    }
}

/// Lists the documents of each key of `source` under the keys that the
/// prefixes of its word make.
pub fn add_prefix_entries(
    target: &mut Postings,
    shape: KeyShape,
    source: &Postings,
    groups: &Vec<&[Vec<u8>]>,
)
    requires
        old(target).wf(),
        source.wf(),
        grouped_by_first_byte(groups@),
    ensures
        final(target).wf(),
        forall|listed: Seq<u8>| #[trigger]
            final(target).docids(listed) == old(target).docids(listed).union(
                prefix_gain(shape, source, groups@, listed, source.keys().len() as int),
            ),
{
    let mut n: usize = 0;
    proof {
        assert forall|listed: Seq<u8>| #[trigger]
            target.docids(listed) == old(target).docids(listed).union(
                prefix_gain(shape, source, groups@, listed, 0),
            ) by {
            assert(prefix_docids_of_upto(shape, source, listed, 0) =~= Set::<DocumentId>::empty());
            assert(old(target).docids(listed).union(Set::<DocumentId>::empty()) =~= old(
                target,
            ).docids(listed));
        }
    }
    while n < source.len()
        invariant
            target.wf(),
            source.wf(),
            n <= source.keys().len(),
            grouped_by_first_byte(groups@),
            forall|listed: Seq<u8>| #[trigger]
                target.docids(listed) == old(target).docids(listed).union(
                    prefix_gain(shape, source, groups@, listed, n as int),
                ),
        decreases source.keys().len() - n,
    {
        let ghost before = *target;
        let key = source.key_at(n);
        let docids = source.docids_at(n);
        let range = find_word(shape, key.as_slice());
        match range {
            Some((start, end)) => {
                merge_key_into_groups(target, key.as_slice(), start, end, docids, groups);
            },
            None => {},
        }
        proof {
            assert forall|listed: Seq<u8>| #[trigger]
                target.docids(listed) == old(target).docids(listed).union(
                    prefix_gain(shape, source, groups@, listed, n + 1),
                ) by {
                assert(before.docids(listed) == old(target).docids(listed).union(
                    prefix_gain(shape, source, groups@, listed, n as int),
                ));
                let shorter = prefix_docids_of_upto(shape, source, listed, n as int);
                let longer = prefix_docids_of_upto(shape, source, listed, n + 1);
                let here = lists_under(shape, key@, listed);
                let added = if here {
                    bitmap_ids(*docids)
                } else {
                    Set::empty()
                };
                assert forall|id: DocumentId| longer.contains(id) == shorter.union(added).contains(
                    id,
                ) by {
                    if shorter.contains(id) {
                        let j = choose|j: int|
                            0 <= j < n && j < source.keys().len() && lists_under(
                                shape,
                                #[trigger] source.keys()[j],
                                listed,
                            ) && source.docids(source.keys()[j]).contains(id);
                        assert(0 <= j < n + 1);
                    }
                    if added.contains(id) {
                        assert(0 <= n < n + 1 && lists_under(shape, source.keys()[n as int], listed));
                    }
                    if longer.contains(id) {
                        let j = choose|j: int|
                            0 <= j < n + 1 && j < source.keys().len() && lists_under(
                                shape,
                                #[trigger] source.keys()[j],
                                listed,
                            ) && source.docids(source.keys()[j]).contains(id);
                        if j < n {
                            assert(shorter.contains(id));
                        }
                    }
                }
                assert(longer =~= shorter.union(added));
                let wanted = key_word(shape, listed).is_some() && in_groups(
                    groups@,
                    key_word(shape, listed).unwrap(),
                );
                match range {
                    Some((start, end)) => {
                        let made = is_target_in_groups(
                            key@,
                            start as int,
                            end as int,
                            groups@,
                            groups@.len() as int,
                            listed,
                        );
                        if made {
                            let g = choose|g: int|
                                0 <= g < groups@.len() && #[trigger] is_target_among(
                                    key@,
                                    start as int,
                                    end as int,
                                    groups@[g]@,
                                    listed,
                                );
                            let i = choose|i: int|
                                0 <= i < groups@[g]@.len() && is_prefix(
                                    (#[trigger] groups@[g]@[i])@,
                                    key@.subrange(start as int, end as int),
                                ) && listed == with_word(
                                    key@,
                                    start as int,
                                    end as int,
                                    groups@[g]@[i]@,
                                );
                            lemma_target_of(shape, key@, groups@[g]@[i]@);
                            assert(key_word(shape, listed) == Some(groups@[g]@[i]@)) by {
                                assert(listed.subrange(
                                    start as int,
                                    start + groups@[g]@[i]@.len(),
                                ) =~= groups@[g]@[i]@);
                            }
                            assert(in_groups(groups@, groups@[g]@[i]@));
                            assert(wanted && here);
                        }
                        if wanted && here {
                            lemma_listed_target(shape, key@, listed);
                            let prefix = key_word(shape, listed).unwrap();
                            let (g, i) = choose|g: int, i: int|
                                0 <= g < groups@.len() && 0 <= i < groups@[g]@.len() && (
                                #[trigger] groups@[g]@[i])@ == prefix;
                            assert(is_target_among(
                                key@,
                                start as int,
                                end as int,
                                groups@[g]@,
                                listed,
                            ));
                            assert(made);
                        }
                        if wanted && here {
                            assert(old(target).docids(listed).union(shorter).union(
                                bitmap_ids(*docids),
                            ) =~= old(target).docids(listed).union(longer));
                        }
                    },
                    None => {
                        assert(!here);
                    },
                }
            }
        }
        n += 1;
    }
}

/// Takes out the keys whose word is one of `deleted`.
pub fn remove_prefixes(target: &mut Postings, shape: KeyShape, deleted: &Vec<Vec<u8>>)
    requires
        old(target).wf(),
    ensures
        final(target).wf(),
        forall|listed: Seq<u8>| #[trigger]
            final(target).docids(listed) == if key_word(shape, listed).is_some() && names_contain(
                deleted@,
                key_word(shape, listed).unwrap(),
            ) {
                Set::<DocumentId>::empty()
            } else {
                old(target).docids(listed)
            },
{
    if deleted.len() == 0 {
        proof {
            assert forall|listed: Seq<u8>| key_word(shape, listed).is_some() implies !names_contain(
                deleted@,
                key_word(shape, listed).unwrap(),
            ) by {}
        }
        return;
    }
    let mut kept = Postings::new();
    let mut n: usize = 0;
    while n < target.len()
        invariant
            target.wf(),
            kept.wf(),
            *target == *old(target),
            n <= target.keys().len(),
            forall|listed: Seq<u8>| #[trigger]
                kept.docids(listed) == if key_word(shape, listed).is_some() && names_contain(
                    deleted@,
                    key_word(shape, listed).unwrap(),
                ) {
                    Set::<DocumentId>::empty()
                } else {
                    target.docids_upto(n as int, listed)
                },
        decreases target.keys().len() - n,
    {
        let ghost before = kept;
        let key = target.key_at(n);
        let gone = match find_word(shape, key.as_slice()) {
            Some((start, end)) => {
                let word = copy_range(key.as_slice(), start, end);
                contains_name(deleted, word.as_slice())
            },
            None => false,
        };
        if !gone {
            kept.merge_entry(key.as_slice(), target.docids_at(n));
        }
        proof {
            target.lemma_wf();
            assert forall|listed: Seq<u8>| #[trigger]
                kept.docids(listed) == if key_word(shape, listed).is_some() && names_contain(
                    deleted@,
                    key_word(shape, listed).unwrap(),
                ) {
                    Set::<DocumentId>::empty()
                } else {
                    target.docids_upto(n + 1, listed)
                } by {
                if listed == key@ {
                    if exists|j: int|
                        0 <= j < n && j < target.keys().len() && target.keys()[j] == listed {
                        let j = choose|j: int|
                            0 <= j < n && j < target.keys().len() && target.keys()[j] == listed;
                        crate::sorted_map::lemma_sorted_keys_distinct(
                            target.keys(),
                            j,
                            n as int,
                        );
                    }
                    assert(target.docids_upto(n as int, listed) == Set::<DocumentId>::empty());
                    assert(target.keys()[n as int] == listed);
                    assert(target.docids_upto(n + 1, listed) == target.docids(listed));
                    assert(Set::<DocumentId>::empty().union(target.docids(listed))
                        =~= target.docids(listed));
                } else {
                    if exists|j: int|
                        0 <= j < n + 1 && j < target.keys().len() && target.keys()[j] == listed {
                        let j = choose|j: int|
                            0 <= j < n + 1 && j < target.keys().len() && target.keys()[j] == listed;
                        assert(0 <= j < n && j < target.keys().len() && target.keys()[j] == listed);
                    }
                    assert(target.docids_upto(n + 1, listed) == target.docids_upto(
                        n as int,
                        listed,
                    ));
                }
            }
        }
        n += 1;
    }
    proof {
        assert forall|listed: Seq<u8>| #[trigger]
            kept.docids(listed) == if key_word(shape, listed).is_some() && names_contain(
                deleted@,
                key_word(shape, listed).unwrap(),
            ) {
                Set::<DocumentId>::empty()
            } else {
                target.docids(listed)
            } by {
            target.lemma_docids_upto_all(listed);
        }
    }
    *target = kept;
}

/// What a prefix database lists under `listed` once it is up to date:
/// nothing where the word of `listed` is a deleted prefix, and otherwise
/// what it listed, what `words` lists for it where its word is a new
/// prefix, and what `chunk` lists for it where its word is a common one.
pub open spec fn updated_docids(
    shape: KeyShape,
    earlier: Set<DocumentId>,
    words: &Postings,
    chunk: &Postings,
    new_prefixes: Seq<&[Vec<u8>]>,
    common_prefixes: Seq<&[Vec<u8>]>,
    deleted_prefixes: Seq<Vec<u8>>,
    listed: Seq<u8>,
) -> Set<DocumentId> {
    match key_word(shape, listed) {
        Some(prefix) => if names_contain(deleted_prefixes, prefix) {
            Set::empty()
        } else {
            let from_words = if in_groups(new_prefixes, prefix) {
                prefix_docids_of(shape, words, listed)
            } else {
                Set::empty()
            };
            let from_chunk = if in_groups(common_prefixes, prefix) {
                prefix_docids_of(shape, chunk, listed)
            } else {
                Set::empty()
            };
            earlier.union(from_words.union(from_chunk))
        },
        None => earlier,
    }
}

/// Brings a prefix database up to date.
///
/// `words` is the database of the words after the run, and `chunk` holds
/// what the run has added to it. A new prefix is listed with the documents
/// of all its words, a common prefix gains the documents that the run has
/// added to its words, and a deleted prefix leaves the database. Keys that
/// are none of these stay as they are.
pub fn update_prefix_database(
    target: &mut Postings,
    shape: KeyShape,
    words: &Postings,
    chunk: &Postings,
    new_prefixes: &Vec<&[Vec<u8>]>,
    common_prefixes: &Vec<&[Vec<u8>]>,
    deleted_prefixes: &Vec<Vec<u8>>,
)
    requires
        old(target).wf(),
        words.wf(),
        chunk.wf(),
        grouped_by_first_byte(new_prefixes@),
        grouped_by_first_byte(common_prefixes@),
    ensures
        final(target).wf(),
        forall|listed: Seq<u8>| #[trigger]
            final(target).docids(listed) == updated_docids(
                shape,
                old(target).docids(listed),
                words,
                chunk,
                new_prefixes@,
                common_prefixes@,
                deleted_prefixes@,
                listed,
            ),
{
    add_prefix_entries(target, shape, words, new_prefixes);
    let ghost renewed = *target;
    add_prefix_entries(target, shape, chunk, common_prefixes);
    let ghost gained = *target;
    remove_prefixes(target, shape, deleted_prefixes);
    proof {
        assert forall|listed: Seq<u8>| #[trigger]
            target.docids(listed) == updated_docids(
                shape,
                old(target).docids(listed),
                words,
                chunk,
                new_prefixes@,
                common_prefixes@,
                deleted_prefixes@,
                listed,
            ) by {
            lemma_prefix_docids_of_all(shape, words, listed);
            lemma_prefix_docids_of_all(shape, chunk, listed);
            let earlier = old(target).docids(listed);
            let from_words = prefix_gain(
                shape,
                words,
                new_prefixes@,
                listed,
                words.keys().len() as int,
            );
            let from_chunk = prefix_gain(
                shape,
                chunk,
                common_prefixes@,
                listed,
                chunk.keys().len() as int,
            );
            assert(renewed.docids(listed) == earlier.union(from_words));
            assert(gained.docids(listed) == renewed.docids(listed).union(from_chunk));
            assert(earlier.union(from_words).union(from_chunk) =~= earlier.union(
                from_words.union(from_chunk),
            ));
            if key_word(shape, listed).is_none() {
                assert(earlier.union(Set::<DocumentId>::empty().union(Set::<DocumentId>::empty()))
                    =~= earlier);
            }
        }
    }
}

} // verus!
