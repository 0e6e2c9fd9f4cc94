//! Representation of a `TextEdit`.
//!
//! A text is never changed in place by the tools that work on it: they
//! hand out edits. An edit is a list of replacements, each of a range of
//! the original text, sorted and disjoint.

use vstd::prelude::*;
use vstd::utf8::{encode_utf8, is_char_boundary, valid_utf8};

verus! {

/// An offset into a text, counted in bytes.
pub type TextSize = u32;

/// A range of a text, from `start` up to `end`.
#[derive(Debug, Clone, Copy, PartialEq, Eq, Hash, Structural)]
pub struct TextRange {
    pub start: TextSize,
    pub end: TextSize,
}

impl TextRange {
    /// The range does not end before it starts.
    pub open spec fn wf(&self) -> bool {
        self.start <= self.end
    }

    /// The range from `start` up to `end`.
    pub fn new(start: TextSize, end: TextSize) -> (range: TextRange)
        requires
            start <= end,
        ensures
            range == (TextRange { start, end }),
    {
        TextRange { start, end }
    }

    /// The empty range at `offset`.
    pub fn empty(offset: TextSize) -> (range: TextRange)
        ensures
            range == (TextRange { start: offset, end: offset }),
    {
        TextRange { start: offset, end: offset }
    }

    /// Where the range starts.
    pub fn start(&self) -> (start: TextSize)
        ensures
            start == self.start,
    {
        self.start
    }

    /// Where the range ends.
    pub fn end(&self) -> (end: TextSize)
        ensures
            end == self.end,
    {
        self.end
    }

    /// The number of bytes of the range.
    pub fn len(&self) -> (len: TextSize)
        requires
            self.wf(),
        ensures
            len == self.end - self.start,
    {
        self.end - self.start
    }

    /// Whether the range holds no byte.
    pub fn is_empty(&self) -> (empty: bool)
        ensures
            empty == (self.start == self.end),
    {
        self.start == self.end
    }

    /// Whether `offset` lies in the range or at its end.
    pub fn contains_inclusive(&self, offset: TextSize) -> (found: bool)
        ensures
            found == (self.start <= offset <= self.end),
    {
        self.start <= offset && offset <= self.end
    }
}

/// One change to a text: `insert` takes the place of the range `delete`.
///
/// The replacements of one edit must not overlap.
#[derive(Debug, Clone, PartialEq, Eq, Hash)]
pub struct Indel {
    pub insert: String,
    /// Offsets into the text as it is before the edit.
    pub delete: TextRange,
}

/// The bytes of a text with `insert` in place of the range `delete`.
pub open spec fn spliced(bytes: Seq<u8>, insert: Seq<char>, delete: TextRange) -> Seq<u8> {
    bytes.subrange(0, delete.start as int) + encode_utf8(insert) + bytes.subrange(
        delete.end as int,
        bytes.len() as int,
    )
}

/// The range `delete` lies in the text and cuts no character.
pub open spec fn can_splice(bytes: Seq<u8>, delete: TextRange) -> bool {
    &&& delete.wf()
    &&& delete.end <= bytes.len()
    &&& is_char_boundary(bytes, delete.start as int)
    &&& is_char_boundary(bytes, delete.end as int)
}

/// The replacements of `indels` can be made one after the other, from
/// the last to the first.
pub open spec fn can_apply(indels: Seq<Indel>, bytes: Seq<u8>) -> bool
    decreases indels.len(),
{
    indels.len() > 0 ==> can_splice(bytes, indels.last().delete) && can_apply(
        indels.drop_last(),
        spliced(bytes, indels.last().insert@, indels.last().delete),
    )
}

/// The bytes of a text after the replacements of `indels` were made one
/// after the other, from the last to the first.
pub open spec fn applied(indels: Seq<Indel>, bytes: Seq<u8>) -> Seq<u8>
    decreases indels.len(),
{
    if indels.len() == 0 {
        bytes
    } else {
        applied(indels.drop_last(), spliced(bytes, indels.last().insert@, indels.last().delete))
    }
}

/// `String::replace_range` of the standard library: the bytes from
/// `start` up to `end` leave the text and those of `with` take their
/// place. Both ends must lie in the text, between two characters.
#[verifier::external_body]
fn replace_range(text: &mut String, start: usize, end: usize, with: &str)
    requires
        start <= end <= encode_utf8(old(text)@).len(),
        is_char_boundary(encode_utf8(old(text)@), start as int),
        is_char_boundary(encode_utf8(old(text)@), end as int),
    ensures
        encode_utf8(final(text)@) == encode_utf8(old(text)@).subrange(0, start as int)
            + encode_utf8(with@) + encode_utf8(old(text)@).subrange(
            end as int,
            encode_utf8(old(text)@).len() as int,
        ),
{
    text.replace_range(start..end, with)
}

/// A text with a replacement made in it is a text.
pub proof fn lemma_spliced_valid(bytes: Seq<u8>, insert: Seq<char>, delete: TextRange)
    requires
        valid_utf8(bytes),
        can_splice(bytes, delete),
    ensures
        valid_utf8(spliced(bytes, insert, delete)),
{
    vstd::utf8::valid_utf8_split(bytes, delete.start as int);
    vstd::utf8::valid_utf8_split(bytes, delete.end as int);
    vstd::utf8::encode_utf8_valid_utf8(insert);
    vstd::utf8::valid_utf8_concat(bytes.subrange(0, delete.start as int), encode_utf8(insert));
    vstd::utf8::valid_utf8_concat(
        bytes.subrange(0, delete.start as int) + encode_utf8(insert),
        bytes.subrange(delete.end as int, bytes.len() as int),
    );
}

/// Each replacement ends before those after it start.
pub open spec fn is_disjoint(indels: Seq<Indel>) -> bool {
    forall|i: int, j: int|
        0 <= i < j < indels.len() ==> (#[trigger] indels[i]).delete.end <= (
        #[trigger] indels[j]).delete.start
}

/// The range of each replacement lies in the text and cuts no character.
pub open spec fn all_splice(indels: Seq<Indel>, bytes: Seq<u8>) -> bool {
    forall|i: int| 0 <= i < indels.len() ==> can_splice(bytes, (#[trigger] indels[i]).delete)
}

/// A replacement moves no character boundary that lies before its range
/// or at the start of it.
pub proof fn lemma_boundary_kept(bytes: Seq<u8>, insert: Seq<char>, delete: TextRange, index: int)
    requires
        valid_utf8(bytes),
        can_splice(bytes, delete),
        0 <= index <= delete.start,
        is_char_boundary(bytes, index),
    ensures
        is_char_boundary(spliced(bytes, insert, delete), index),
{
    let after = spliced(bytes, insert, delete);
    let tail = encode_utf8(insert) + bytes.subrange(delete.end as int, bytes.len() as int);
    lemma_spliced_valid(bytes, insert, delete);
    vstd::utf8::is_char_boundary_start_end_of_seq(after);
    if 0 < index < after.len() {
        if index < delete.start {
            assert(after[index] == bytes[index]);
            vstd::utf8::is_char_boundary_iff_not_is_continuation_byte(bytes, index);
        } else {
            vstd::utf8::valid_utf8_split(bytes, delete.end as int);
            vstd::utf8::encode_utf8_valid_utf8(insert);
            vstd::utf8::valid_utf8_concat(
                encode_utf8(insert),
                bytes.subrange(delete.end as int, bytes.len() as int),
            );
            assert(after =~= bytes.subrange(0, delete.start as int) + tail);
            assert(after[index] == tail[0]);
            vstd::utf8::is_char_boundary_start_end_of_seq(tail);
            vstd::utf8::is_char_boundary_iff_not_is_continuation_byte(tail, 0);
        }
        vstd::utf8::is_char_boundary_iff_not_is_continuation_byte(after, index);
    }
}

/// Replacements that are disjoint and lie in the text, each between two
/// characters, can be made one after the other from the last to the
/// first.
pub proof fn lemma_disjoint_applies(indels: Seq<Indel>, bytes: Seq<u8>)
    requires
        valid_utf8(bytes),
        is_disjoint(indels),
        all_splice(indels, bytes),
    ensures
        can_apply(indels, bytes),
    decreases indels.len(),
{
    if indels.len() > 0 {
        let last = indels.last();
        let front = indels.drop_last();
        let after = spliced(bytes, last.insert@, last.delete);
        assert(can_splice(bytes, indels[indels.len() - 1].delete));
        lemma_spliced_valid(bytes, last.insert@, last.delete);
        assert forall|i: int| 0 <= i < front.len() implies can_splice(
            after,
            (#[trigger] front[i]).delete,
        ) by {
            assert(front[i] == indels[i]);
            assert(indels[i].delete.end <= indels[indels.len() - 1].delete.start);
            lemma_boundary_kept(bytes, last.insert@, last.delete, front[i].delete.start as int);
            lemma_boundary_kept(bytes, last.insert@, last.delete, front[i].delete.end as int);
        }
        assert forall|i: int, j: int| 0 <= i < j < front.len() implies (
        #[trigger] front[i]).delete.end <= (#[trigger] front[j]).delete.start by {
            assert(front[i] == indels[i] && front[j] == indels[j]);
        }
        lemma_disjoint_applies(front, after);
    }
}

impl Indel {
    pub fn insert(offset: TextSize, text: String) -> (indel: Indel)
        ensures
            indel.insert == text,
            indel.delete == (TextRange { start: offset, end: offset }),
    {
        Indel::replace(TextRange::empty(offset), text)
    }

    pub fn delete(range: TextRange) -> (indel: Indel)
        ensures
            indel.insert@ == Seq::<char>::empty(),
            indel.delete == range,
    {
        Indel::replace(range, String::new())
    }

    pub fn replace(range: TextRange, replace_with: String) -> (indel: Indel)
        ensures
            indel.insert == replace_with,
            indel.delete == range,
    {
        Indel { delete: range, insert: replace_with }
    }

    /// Whether the replacement can be made in `text`: its range lies in
    /// the text and cuts no character.
    pub fn applies_to(&self, text: &str) -> (fits: bool)
        ensures
            fits == can_splice(encode_utf8(text@), self.delete),
    {
        proof {
            vstd::utf8::encode_utf8_valid_utf8(text@);
        }
        if self.delete.start > self.delete.end {
            return false;
        }
        if self.delete.end as usize > text.as_bytes().len() {
            return false;
        }
        text.is_char_boundary(self.delete.start as usize) && text.is_char_boundary(
            self.delete.end as usize,
        )
    }

    /// Makes the replacement in `text`.
    pub fn apply(&self, text: &mut String)
        requires
            can_splice(encode_utf8(old(text)@), self.delete),
        ensures
            encode_utf8(final(text)@) == spliced(
                encode_utf8(old(text)@),
                self.insert@,
                self.delete,
            ),
    {
        let start = self.delete.start as usize;
        let end = self.delete.end as usize;
        replace_range(text, start, end, self.insert.as_str());
    }
}

/// Two replacements are the same: the same text for the same range.
pub open spec fn same_indel(a: Indel, b: Indel) -> bool {
    a.insert@ == b.insert@ && a.delete == b.delete
}

/// The order of ranges: by their start, and by their end where they start
/// together.
pub open spec fn range_le(a: TextRange, b: TextRange) -> bool {
    a.start < b.start || (a.start == b.start && a.end <= b.end)
}

/// The replacements stand in the order of their ranges.
pub open spec fn is_sorted(indels: Seq<Indel>) -> bool {
    forall|i: int, j: int|
        0 <= i < j < indels.len()
            ==> range_le((#[trigger] indels[i]).delete, (#[trigger] indels[j]).delete)
}

/// Each replacement ends before the next one starts, or is the same as the
/// next one.
pub open spec fn is_disjoint_or_equal(indels: Seq<Indel>) -> bool {
    forall|i: int|
        0 <= i < indels.len() - 1 ==> (#[trigger] indels[i]).delete.end <= indels[i + 1].delete.start
            || same_indel(indels[i], indels[i + 1])
}

/// The first position of `sorted`, from `from` on, whose range is not
/// below `range`.
pub open spec fn insertion_point(sorted: Seq<Indel>, range: TextRange, from: int) -> int
    decreases sorted.len() - from,
{
    if from < 0 || from >= sorted.len() || range_le(range, sorted[from].delete) {
        from
    } else {
        insertion_point(sorted, range, from + 1)
    }
}

/// The replacements in the order of their ranges; replacements of one
/// range keep their order.
pub open spec fn sorted_indels(indels: Seq<Indel>) -> Seq<Indel>
    decreases indels.len(),
{
    if indels.len() == 0 {
        indels
    } else {
        let rest = sorted_indels(indels.drop_first());
        rest.insert(insertion_point(rest, indels[0].delete, 0), indels[0])
    }
}

/// The replacements without those that repeat the one before them; a
/// replacement that deletes nothing is kept however often it stands.
pub open spec fn deduped(indels: Seq<Indel>) -> Seq<Indel>
    decreases indels.len(),
{
    if indels.len() == 0 {
        indels
    } else {
        let kept = deduped(indels.drop_last());
        if kept.len() > 0 && same_indel(indels.last(), kept.last()) && indels.last().delete.start
            != indels.last().delete.end {
            kept
        } else {
            kept.push(indels.last())
        }
    }
}

/// Where the insertion point lies: no range before it reaches `range`,
/// and the range at it does.
pub proof fn lemma_insertion_point(sorted: Seq<Indel>, range: TextRange, from: int)
    requires
        0 <= from <= sorted.len(),
    ensures
        from <= insertion_point(sorted, range, from) <= sorted.len(),
        forall|i: int|
            from <= i < insertion_point(sorted, range, from) ==> !range_le(
                range,
                (#[trigger] sorted[i]).delete,
            ),
        insertion_point(sorted, range, from) < sorted.len() ==> range_le(
            range,
            sorted[insertion_point(sorted, range, from)].delete,
        ),
    decreases sorted.len() - from,
{
    if from < sorted.len() && !range_le(range, sorted[from].delete) {
        lemma_insertion_point(sorted, range, from + 1);
    }
}

/// Sorting keeps the number of replacements and puts them in order.
pub proof fn lemma_sorted_indels(indels: Seq<Indel>)
    ensures
        sorted_indels(indels).len() == indels.len(),
        is_sorted(sorted_indels(indels)),
    decreases indels.len(),
{
    if indels.len() > 0 {
        let rest = sorted_indels(indels.drop_first());
        lemma_sorted_indels(indels.drop_first());
        lemma_insertion_point(rest, indels[0].delete, 0);
        let at = insertion_point(rest, indels[0].delete, 0);
        let all = rest.insert(at, indels[0]);
        assert forall|i: int, j: int| 0 <= i < j < all.len() implies range_le(
            (#[trigger] all[i]).delete,
            (#[trigger] all[j]).delete,
        ) by {
            if j < at {
                assert(all[i] == rest[i] && all[j] == rest[j]);
            } else if i > at {
                assert(all[i] == rest[i - 1] && all[j] == rest[j - 1]);
            } else if i == at {
                assert(all[j] == rest[j - 1]);
                if j - 1 > at {
                    assert(range_le(rest[at].delete, rest[j - 1].delete));
                }
            } else if j == at {
                assert(all[i] == rest[i]);
            } else {
                assert(all[i] == rest[i] && all[j] == rest[j - 1]);
            }
        }
    }
}

/// Dropping the repeated replacements of a sorted and disjoint list leaves
/// a sorted and disjoint list, which ends as the list did.
pub proof fn lemma_deduped(indels: Seq<Indel>)
    requires
        is_sorted(indels),
        is_disjoint_or_equal(indels),
    ensures
        is_sorted(deduped(indels)),
        is_disjoint_or_equal(deduped(indels)),
        deduped(indels).len() <= indels.len(),
        indels.len() > 0 ==> deduped(indels).len() > 0 && same_indel(
            deduped(indels).last(),
            indels.last(),
        ),
        forall|i: int|
            0 <= i < deduped(indels).len() ==> range_le(
                (#[trigger] deduped(indels)[i]).delete,
                indels.last().delete,
            ),
    decreases indels.len(),
{
    if indels.len() > 0 {
        let front = indels.drop_last();
        let last = indels.last();
        assert forall|i: int, j: int| 0 <= i < j < front.len() implies range_le(
            (#[trigger] front[i]).delete,
            (#[trigger] front[j]).delete,
        ) by {
            assert(front[i] == indels[i] && front[j] == indels[j]);
        }
        assert forall|i: int| 0 <= i < front.len() - 1 implies (#[trigger] front[i]).delete.end
            <= front[i + 1].delete.start || same_indel(front[i], front[i + 1]) by {
            assert(front[i] == indels[i] && front[i + 1] == indels[i + 1]);
        }
        lemma_deduped(front);
        let kept = deduped(front);
        let all = deduped(indels);
        if front.len() > 0 {
            assert(front.last() == indels[indels.len() - 2]);
            assert(range_le(indels[indels.len() - 2].delete, indels[indels.len() - 1].delete));
            assert(indels[indels.len() - 2].delete.end <= indels[indels.len() - 2 + 1].delete.start
                || same_indel(indels[indels.len() - 2], indels[indels.len() - 2 + 1]));
        }
        assert forall|i: int| 0 <= i < all.len() implies range_le(
            (#[trigger] all[i]).delete,
            last.delete,
        ) by {
            if i < kept.len() {
                assert(all[i] == kept[i]);
                assert(range_le(kept[i].delete, front.last().delete));
            }
        }
        if all.len() > kept.len() {
            assert forall|i: int, j: int| 0 <= i < j < all.len() implies range_le(
                (#[trigger] all[i]).delete,
                (#[trigger] all[j]).delete,
            ) by {
                if j < kept.len() {
                    assert(all[i] == kept[i] && all[j] == kept[j]);
                }
            }
            assert forall|i: int| 0 <= i < all.len() - 1 implies (#[trigger] all[i]).delete.end
                <= all[i + 1].delete.start || same_indel(all[i], all[i + 1]) by {
                if i < kept.len() - 1 {
                    assert(all[i] == kept[i] && all[i + 1] == kept[i + 1]);
                }
            }
        }
    }
}

/// One replacement is sorted as it stands, and disjoint.
pub proof fn lemma_sorted_single(indel: Indel)
    ensures
        sorted_indels(Seq::<Indel>::empty().push(indel)) == Seq::<Indel>::empty().push(indel),
        is_disjoint_or_equal(Seq::<Indel>::empty().push(indel)),
{
    let single = Seq::<Indel>::empty().push(indel);
    assert(single.drop_first() =~= Seq::<Indel>::empty());
    assert(sorted_indels(single.drop_first()) =~= Seq::<Indel>::empty());
    assert(insertion_point(Seq::<Indel>::empty(), indel.delete, 0) == 0);
    assert(Seq::<Indel>::empty().insert(0, indel) =~= single);
}

fn indels_equal(a: &Indel, b: &Indel) -> (same: bool)
    ensures
        same == same_indel(*a, *b),
{
    a.insert == b.insert && a.delete == b.delete
}

fn range_not_above(a: &TextRange, b: &TextRange) -> (below: bool)
    ensures
        below == range_le(*a, *b),
{
    a.start < b.start || (a.start == b.start && a.end <= b.end)
}

fn sort_indels(indels: Vec<Indel>) -> (sorted: Vec<Indel>)
    ensures
        sorted@ == sorted_indels(indels@),
{
    let ghost all = indels@;
    let mut rest = indels;
    let mut sorted: Vec<Indel> = Vec::new();
    proof {
        assert(all.subrange(all.len() as int, all.len() as int) =~= Seq::<Indel>::empty());
    }
    while rest.len() > 0
        invariant
            rest@.len() <= all.len(),
            rest@ == all.subrange(0, rest@.len() as int),
            sorted@ == sorted_indels(all.subrange(rest@.len() as int, all.len() as int)),
        decreases rest@.len(),
    {
        let ghost at = rest@.len() - 1;
        let ghost done = all.subrange(at + 1, all.len() as int);
        let indel = rest.pop().unwrap();
        proof {
            assert(indel == all[at]);
            assert(rest@ =~= all.subrange(0, at));
            assert(all.subrange(at, all.len() as int).drop_first() =~= done);
            assert(all.subrange(at, all.len() as int)[0] == indel);
            lemma_sorted_indels(done);
        }
        let mut point: usize = 0;
        while point < sorted.len() && !range_not_above(&indel.delete, &sorted[point].delete)
            invariant
                point <= sorted@.len(),
                insertion_point(sorted@, indel.delete, 0) == insertion_point(
                    sorted@,
                    indel.delete,
                    point as int,
                ),
            decreases sorted@.len() - point,
        {
            point += 1;
        }
        sorted.insert(point, indel);
    }
    proof {
        assert(all.subrange(0, all.len() as int) =~= all);
    }
    sorted
}

fn disjoint_or_equal(indels: &Vec<Indel>) -> (compatible: bool)
    ensures
        compatible == is_disjoint_or_equal(indels@),
{
    let count = indels.len();
    let mut i: usize = 0;
    while i < count && i + 1 < count
        invariant
            count == indels@.len(),
            forall|j: int|
                0 <= j < i && j < indels@.len() - 1 ==> (#[trigger] indels@[j]).delete.end
                    <= indels@[j + 1].delete.start || same_indel(indels@[j], indels@[j + 1]),
        decreases indels@.len() - i,
    {
        if !(indels[i].delete.end <= indels[i + 1].delete.start || indels_equal(
            &indels[i],
            &indels[i + 1],
        )) {
            return false;
        }
        i += 1;
    }
    true
}

/// Sorts the replacements and tells whether each of them ends before the
/// next one starts or is the same as the next one.
pub fn check_disjoint_and_sort(indels: &mut Vec<Indel>) -> (compatible: bool)
    ensures
        final(indels)@ == sorted_indels(old(indels)@),
        compatible == is_disjoint_or_equal(final(indels)@),
{
    let mut taken: Vec<Indel> = Vec::new();
    core::mem::swap(indels, &mut taken);
    let mut sorted = sort_indels(taken);
    core::mem::swap(indels, &mut sorted);
    disjoint_or_equal(indels)
}

fn clone_indels(indels: &Vec<Indel>) -> (copy: Vec<Indel>)
    ensures
        copy@ == indels@,
{
    let mut copy: Vec<Indel> = Vec::new();
    let mut i: usize = 0;
    while i < indels.len()
        invariant
            i <= indels@.len(),
            copy@ == indels@.subrange(0, i as int),
        decreases indels@.len() - i,
    {
        copy.push(Indel { insert: indels[i].insert.clone(), delete: indels[i].delete });
        proof {
            assert(copy@ =~= indels@.subrange(0, i + 1));
        }
        i += 1;
    }
    proof {
        assert(indels@.subrange(0, i as int) =~= indels@);
    }
    copy
}

fn dedup_indels(indels: Vec<Indel>) -> (kept: Vec<Indel>)
    ensures
        kept@ == deduped(indels@),
{
    let ghost all = indels@;
    let mut rest = indels;
    // The replacements are taken from the end: they are put back in order below.
    let mut reversed: Vec<Indel> = Vec::new();
    while rest.len() > 0
        invariant
            rest@.len() + reversed@.len() == all.len(),
            rest@ == all.subrange(0, rest@.len() as int),
            forall|i: int|
                0 <= i < reversed@.len() ==> #[trigger] reversed@[i] == all[all.len() - 1 - i],
        decreases rest@.len(),
    {
        let ghost at = rest@.len() - 1;
        let ghost before = reversed@;
        let indel = rest.pop().unwrap();
        proof {
            assert(rest@ =~= all.subrange(0, at));
        }
        reversed.push(indel);
        proof {
            assert forall|i: int| 0 <= i < reversed@.len() implies #[trigger] reversed@[i]
                == all[all.len()
                - 1 - i] by {
                if i < before.len() {
                    assert(reversed@[i] == before[i]);
                }
            }
        }
    }
    let mut kept: Vec<Indel> = Vec::new();
    proof {
        assert(all.subrange(0, 0) =~= Seq::<Indel>::empty());
    }
    while reversed.len() > 0
        invariant
            reversed@.len() <= all.len(),
            forall|i: int|
                0 <= i < reversed@.len() ==> #[trigger] reversed@[i] == all[all.len() - 1 - i],
            kept@ == deduped(all.subrange(0, all.len() - reversed@.len())),
        decreases reversed@.len(),
    {
        let ghost done = all.len() - reversed@.len();
        let indel = reversed.pop().unwrap();
        proof {
            assert(indel == all[done]);
            assert(all.subrange(0, done + 1).drop_last() =~= all.subrange(0, done));
            assert(all.subrange(0, done + 1).last() == indel);
        }
        let repeats = kept.len() > 0 && indels_equal(&indel, &kept[kept.len() - 1])
            && !indel.delete.is_empty();
        if !repeats {
            kept.push(indel);
        }
    }
    proof {
        assert(all.subrange(0, all.len() as int) =~= all);
    }
    kept
}

/// A list of replacements that are sorted and disjoint.
#[derive(Debug, Clone)]
pub struct TextEdit {
    /// Invariant: disjoint and sorted by `delete`.
    indels: Vec<Indel>,
}

/// Collects replacements for a `TextEdit`.
#[derive(Debug, Clone)]
pub struct TextEditBuilder {
    indels: Vec<Indel>,
}

impl Default for TextEdit {
    fn default() -> (edit: Self)
        ensures
            edit.indels().len() == 0,
    {
        TextEdit { indels: Vec::new() }
    }
}

impl Default for TextEditBuilder {
    fn default() -> (builder: Self)
        ensures
            builder.indels().len() == 0,
    {
        TextEditBuilder { indels: Vec::new() }
    }
}

/// How far the replacements that start before `offset` move it.
pub open spec fn shift_before(indels: Seq<Indel>, offset: TextSize) -> int
    decreases indels.len(),
{
    if indels.len() == 0 {
        0
    } else {
        shift_before(indels.drop_last(), offset) + if indels.last().delete.start < offset {
            encode_utf8(indels.last().insert@).len() - (indels.last().delete.end
                - indels.last().delete.start)
        } else {
            0
        }
    }
}

/// `offset` lies within a range that one of the replacements deletes.
pub open spec fn is_cut(indels: Seq<Indel>, offset: TextSize) -> bool {
    exists|i: int|
        0 <= i < indels.len() && (#[trigger] indels[i]).delete.start < offset
            < indels[i].delete.end
}

impl TextEdit {
    /// The replacements of the edit, in their order.
    pub closed spec fn indels(&self) -> Seq<Indel> {
        self.indels@
    }

    /// The replacements are sorted, and each of them ends before the next
    /// one starts or is the same as the next one.
    pub open spec fn wf(&self) -> bool {
        &&& is_sorted(self.indels())
        &&& is_disjoint_or_equal(self.indels())
    }

    pub fn builder() -> (builder: TextEditBuilder)
        ensures
            builder.indels().len() == 0,
    {
        TextEditBuilder::default()
    }

    pub fn insert(offset: TextSize, text: String) -> (edit: TextEdit)
        ensures
            edit.wf(),
            edit.indels().len() == 1,
            edit.indels()[0].insert == text,
            edit.indels()[0].delete == (TextRange { start: offset, end: offset }),
    {
        let mut builder = TextEdit::builder();
        proof {
            assert(builder.indels() =~= Seq::<Indel>::empty());
            lemma_sorted_single(
                Indel { insert: text, delete: TextRange { start: offset, end: offset } },
            );
        }
        builder.insert(offset, text);
        builder.finish()
    }

    pub fn delete(range: TextRange) -> (edit: TextEdit)
        ensures
            edit.wf(),
            edit.indels().len() == 1,
            edit.indels()[0].insert@ == Seq::<char>::empty(),
            edit.indels()[0].delete == range,
    {
        let mut builder = TextEdit::builder();
        proof {
            assert(builder.indels() =~= Seq::<Indel>::empty());
            assert forall|indel: Indel|
                indel.insert@ == Seq::<char>::empty() && indel.delete
                    == range implies #[trigger] builder.accepts(indel) by {
                lemma_sorted_single(indel);
            }
        }
        let ghost empty = builder;
        builder.delete(range);
        proof {
            let indel = choose|indel: Indel|
                indel.insert@ == Seq::<char>::empty() && indel.delete == range && builder.indels()
                    == #[trigger] empty.with_indel(indel);
            lemma_sorted_single(indel);
        }
        builder.finish()
    }

    pub fn replace(range: TextRange, replace_with: String) -> (edit: TextEdit)
        ensures
            edit.wf(),
            edit.indels().len() == 1,
            edit.indels()[0].insert == replace_with,
            edit.indels()[0].delete == range,
    {
        let mut builder = TextEdit::builder();
        proof {
            assert(builder.indels() =~= Seq::<Indel>::empty());
            lemma_sorted_single(Indel { insert: replace_with, delete: range });
        }
        builder.replace(range, replace_with);
        builder.finish()
    }

    pub fn len(&self) -> (count: usize)
        ensures
            count == self.indels().len(),
    {
        self.indels.len()
    }

    pub fn is_empty(&self) -> (empty: bool)
        ensures
            empty == (self.indels().len() == 0),
    {
        self.indels.len() == 0
    }

    /// The replacements of the edit, in their order.
    pub fn as_slice(&self) -> (indels: &[Indel])
        ensures
            indels@ == self.indels(),
    {
        self.indels.as_slice()
    }

    /// Walks the replacements of the edit, in their order.
    pub fn iter(&self) -> (iter: core::slice::Iter<'_, Indel>)
        ensures
            vstd::std_specs::slice::into_iter_elts(iter) == self.indels(),
    {
        broadcast use vstd::std_specs::slice::axiom_spec_slice_iter;

        let iter = self.indels.as_slice().iter();
        proof {
            assert(vstd::std_specs::slice::into_iter_elts(iter) =~= self.indels@);
        }
        iter
    }

    /// Whether the replacements are disjoint and each of them lies in
    /// `text` between two characters: the edit can then be made.
    pub fn applies_to(&self, text: &str) -> (fits: bool)
        ensures
            fits == (is_disjoint(self.indels()) && all_splice(
                self.indels(),
                encode_utf8(text@),
            )),
            fits ==> can_apply(self.indels(), encode_utf8(text@)),
    {
        let mut i: usize = 0;
        while i < self.indels.len()
            invariant
                i <= self.indels@.len(),
                is_disjoint(self.indels@.subrange(0, i as int)),
                all_splice(self.indels@.subrange(0, i as int), encode_utf8(text@)),
            decreases self.indels@.len() - i,
        {
            if !self.indels[i].applies_to(text) {
                return false;
            }
            if i > 0 && self.indels[i - 1].delete.end > self.indels[i].delete.start {
                return false;
            }
            proof {
                let before = self.indels@.subrange(0, i as int);
                let now = self.indels@.subrange(0, i + 1);
                assert forall|a: int, b: int| 0 <= a < b < now.len() implies (
                #[trigger] now[a]).delete.end <= (#[trigger] now[b]).delete.start by {
                    assert(now[a] == before[a]);
                    if b < i {
                        assert(now[b] == before[b]);
                    } else if a < i - 1 {
                        assert(before[i - 1] == self.indels@[i - 1]);
                        assert(before[a].delete.end <= before[i - 1].delete.start);
                        assert(can_splice(encode_utf8(text@), before[i - 1].delete));
                    } else {
                        assert(before[a] == self.indels@[i - 1]);
                    }
                }
                assert forall|a: int| 0 <= a < now.len() implies can_splice(
                    encode_utf8(text@),
                    (#[trigger] now[a]).delete,
                ) by {
                    if a < i {
                        assert(now[a] == before[a]);
                    }
                }
            }
            i += 1;
        }
        proof {
            assert(self.indels@.subrange(0, i as int) =~= self.indels@);
            vstd::utf8::encode_utf8_valid_utf8(text@);
            lemma_disjoint_applies(self.indels@, encode_utf8(text@));
        }
        true
    }

    /// Makes the replacements in `text`, from the last to the first, so
    /// that each range still names what it named in the original text.
    pub fn apply(&self, text: &mut String)
        requires
            can_apply(self.indels(), encode_utf8(old(text)@)),
        ensures
            encode_utf8(final(text)@) == applied(self.indels(), encode_utf8(old(text)@)),
    {
        let mut n: usize = self.indels.len();
        proof {
            assert(self.indels@.subrange(0, n as int) =~= self.indels@);
        }
        while n > 0
            invariant
                n <= self.indels@.len(),
                can_apply(self.indels@.subrange(0, n as int), encode_utf8(text@)),
                applied(self.indels@.subrange(0, n as int), encode_utf8(text@)) == applied(
                    self.indels@,
                    encode_utf8(old(text)@),
                ),
            decreases n,
        {
            proof {
                let part = self.indels@.subrange(0, n as int);
                assert(part.last() == self.indels@[n - 1]);
                assert(part.drop_last() =~= self.indels@.subrange(0, n - 1));
            }
            self.indels[n - 1].apply(text);
            n -= 1;
        }
    }

    /// Adds the replacements of `other` to the edit, if the replacements
    /// of both are disjoint; hands `other` back if they are not.
    pub fn union(&mut self, other: TextEdit) -> (result: Result<(), TextEdit>)
        ensures
            match result {
                Ok(()) => final(self).wf() && is_disjoint_or_equal(
                    sorted_indels(old(self).indels() + other.indels()),
                ) && final(self).indels() == deduped(
                    sorted_indels(old(self).indels() + other.indels()),
                ),
                Err(returned) => !is_disjoint_or_equal(
                    sorted_indels(old(self).indels() + other.indels()),
                ) && returned == other && final(self).indels() == old(self).indels(),
            },
    {
        let mut all = clone_indels(&self.indels);
        let mut added = clone_indels(&other.indels);
        all.append(&mut added);
        if !check_disjoint_and_sort(&mut all) {
            return Err(other);
        }
        proof {
            lemma_sorted_indels(self.indels@ + other.indels@);
            lemma_deduped(all@);
        }
        // Only deletions and replacements are deduplicated: every insertion stays.
        self.indels = dedup_indels(all);
        Ok(())
    }

    /// Where `offset` of the original text lies in the edited text; nowhere
    /// if it lies within a range that is deleted.
    pub fn apply_to_offset(&self, offset: TextSize) -> (moved: Option<TextSize>)
        requires
            self.wf(),
            forall|i: int| 0 <= i < self.indels().len() ==> (#[trigger] self.indels()[i]).delete.wf(),
            forall|k: int|
                0 <= k <= self.indels().len() ==> 0 <= offset + #[trigger] shift_before(
                    self.indels().subrange(0, k),
                    offset,
                ) <= u32::MAX,
        ensures
            match moved {
                Some(at) => !is_cut(self.indels(), offset) && at == offset + shift_before(
                    self.indels(),
                    offset,
                ),
                None => is_cut(self.indels(), offset),
            },
    {
        let mut res: TextSize = offset;
        let mut n: usize = 0;
        proof {
            assert(self.indels@.subrange(0, 0) =~= Seq::<Indel>::empty());
        }
        while n < self.indels.len()
            invariant
                n <= self.indels@.len(),
                self.wf(),
                forall|i: int| 0 <= i < self.indels@.len() ==> (#[trigger] self.indels@[i]).delete.wf(),
                forall|k: int|
                    0 <= k <= self.indels@.len() ==> 0 <= offset + #[trigger] shift_before(
                        self.indels@.subrange(0, k),
                        offset,
                    ) <= u32::MAX,
                res == offset + shift_before(self.indels@.subrange(0, n as int), offset),
                forall|i: int|
                    0 <= i < n ==> (#[trigger] self.indels@[i]).delete.start < offset
                        && self.indels@[i].delete.end <= offset,
            decreases self.indels@.len() - n,
        {
            let indel = &self.indels[n];
            proof {
                let part = self.indels@.subrange(0, n + 1);
                assert(part.last() == self.indels@[n as int]);
                assert(part.drop_last() =~= self.indels@.subrange(0, n as int));
                assert(0 <= offset + shift_before(part, offset) <= u32::MAX);
            }
            if indel.delete.start >= offset {
                proof {
                    lemma_no_shift_after(self.indels@, offset, n as int, self.indels@.len() as int);
                    assert(self.indels@.subrange(0, self.indels@.len() as int) =~= self.indels@);
                    assert(!is_cut(self.indels@, offset)) by {
                        if is_cut(self.indels@, offset) {
                            let i = choose|i: int|
                                0 <= i < self.indels@.len() && (
                                #[trigger] self.indels@[i]).delete.start < offset
                                    < self.indels@[i].delete.end;
                            if i > n {
                                assert(range_le(self.indels@[n as int].delete, self.indels@[i].delete));
                            }
                        }
                    }
                }
                return Some(res);
            }
            if offset < indel.delete.end {
                return None;
            }
            let inserted = indel.insert.as_str().as_bytes().len();
            let deleted = indel.delete.end - indel.delete.start;
            res = ((res as u128) + (inserted as u128) - (deleted as u128)) as u32;
            n += 1;
        }
        proof {
            assert(self.indels@.subrange(0, n as int) =~= self.indels@);
            assert(!is_cut(self.indels@, offset));
        }
        Some(res)
    }
}

/// The replacements from position `from` on start at `offset` or after it,
/// and so do not move it.
pub proof fn lemma_no_shift_after(indels: Seq<Indel>, offset: TextSize, from: int, to: int)
    requires
        is_sorted(indels),
        0 <= from <= to <= indels.len(),
        from < indels.len() ==> indels[from].delete.start >= offset,
    ensures
        shift_before(indels.subrange(0, to), offset) == shift_before(
            indels.subrange(0, from),
            offset,
        ),
    decreases to - from,
{
    if from < to {
        lemma_no_shift_after(indels, offset, from, to - 1);
        let part = indels.subrange(0, to);
        assert(part.drop_last() =~= indels.subrange(0, to - 1));
        assert(part.last() == indels[to - 1]);
        if to - 1 > from {
            assert(range_le(indels[from].delete, indels[to - 1].delete));
        }
    }
}

impl TextEditBuilder {
    /// The replacements that were collected.
    pub closed spec fn indels(&self) -> Seq<Indel> {
        self.indels@
    }

    /// The replacements of the builder once `indel` is added: while there
    /// are few of them they are kept sorted.
    pub open spec fn with_indel(&self, indel: Indel) -> Seq<Indel> {
        if self.indels().len() < 16 {
            sorted_indels(self.indels().push(indel))
        } else {
            self.indels().push(indel)
        }
    }

    /// `indel` can be added: while there are few replacements, they are
    /// checked to be disjoint as they arrive.
    pub open spec fn accepts(&self, indel: Indel) -> bool {
        self.indels().len() < 16 ==> is_disjoint_or_equal(
            sorted_indels(self.indels().push(indel)),
        )
    }

    pub fn is_empty(&self) -> (empty: bool)
        ensures
            empty == (self.indels().len() == 0),
    {
        self.indels.len() == 0
    }

    pub fn replace(&mut self, range: TextRange, replace_with: String)
        requires
            old(self).accepts(Indel { insert: replace_with, delete: range }),
        ensures
            final(self).indels() == old(self).with_indel(
                Indel { insert: replace_with, delete: range },
            ),
    {
        self.indel(Indel::replace(range, replace_with));
    }

    pub fn delete(&mut self, range: TextRange)
        requires
            forall|indel: Indel|
                indel.insert@ == Seq::<char>::empty() && indel.delete == range
                    ==> #[trigger] old(self).accepts(indel),
        ensures
            exists|indel: Indel|
                indel.insert@ == Seq::<char>::empty() && indel.delete == range
                    && final(self).indels() == #[trigger] old(self).with_indel(indel),
    {
        let indel = Indel::delete(range);
        self.indel(indel);
    }

    pub fn insert(&mut self, offset: TextSize, text: String)
        requires
            old(self).accepts(
                Indel { insert: text, delete: TextRange { start: offset, end: offset } },
            ),
        ensures
            final(self).indels() == old(self).with_indel(
                Indel { insert: text, delete: TextRange { start: offset, end: offset } },
            ),
    {
        self.indel(Indel::insert(offset, text));
    }

    /// The edit that makes the replacements of the builder, which have to
    /// be disjoint.
    pub fn finish(self) -> (edit: TextEdit)
        requires
            is_disjoint_or_equal(sorted_indels(self.indels())),
        ensures
            edit.wf(),
            edit.indels() == sorted_indels(self.indels()),
    {
        let mut indels = self.indels;
        proof {
            lemma_sorted_indels(indels@);
        }
        assert_disjoint_or_equal(&mut indels);
        TextEdit { indels }
    }

    pub fn invalidates_offset(&self, offset: TextSize) -> (found: bool)
        ensures
            found == exists|i: int|
                0 <= i < self.indels().len() && (#[trigger] self.indels()[i]).delete.start <= offset
                    <= self.indels()[i].delete.end,
    {
        let mut i: usize = 0;
        while i < self.indels.len()
            invariant
                i <= self.indels@.len(),
                forall|j: int|
                    0 <= j < i ==> !((#[trigger] self.indels@[j]).delete.start <= offset
                        <= self.indels@[j].delete.end),
            decreases self.indels@.len() - i,
        {
            if self.indels[i].delete.contains_inclusive(offset) {
                proof {
                    assert(self.indels()[i as int].delete.start <= offset);
                }
                return true;
            }
            i += 1;
        }
        false
    }

    fn indel(&mut self, indel: Indel)
        requires
            old(self).accepts(indel),
        ensures
            final(self).indels() == old(self).with_indel(indel),
    {
        self.indels.push(indel);
        if self.indels.len() <= 16 {
            assert_disjoint_or_equal(&mut self.indels);
        }
    }
}

fn assert_disjoint_or_equal(indels: &mut Vec<Indel>)
    requires
        is_disjoint_or_equal(sorted_indels(old(indels)@)),
    ensures
        final(indels)@ == sorted_indels(old(indels)@),
{
    let _ = check_disjoint_and_sort(indels);
}

} // verus!
