//! Sorting what the extraction finds, before it is written.
//!
//! The extraction finds its keys in the order of the documents. They are
//! sorted once, so that a chunk can be built by appending.

use crate::bytes::{compare_keys, key_le, lemma_key_le_transitive, lemma_key_lt_asymmetric, KeyOrder};
use crate::documents::DocumentId;
use vstd::prelude::*;

verus! {

/// One finding of the extraction: a document is to be listed under a key.
pub struct KeyEntry {
    pub key: Vec<u8>,
    pub id: DocumentId,
}

/// Every position of `order` is a position of `entries`.
pub open spec fn is_order_of(entries: Seq<KeyEntry>, order: Seq<usize>) -> bool {
    forall|i: int| 0 <= i < order.len() ==> (#[trigger] order[i]) < entries.len()
}

/// `order` lists positions of `entries` by increasing key.
pub open spec fn is_sorted_order(entries: Seq<KeyEntry>, order: Seq<usize>) -> bool {
    forall|a: int, b: int|
        0 <= a < b < order.len() ==> key_le(
            entries[(#[trigger] order[a]) as int].key@,
            entries[(#[trigger] order[b]) as int].key@,
        )
}

fn merge_orders(entries: &Vec<KeyEntry>, left: &Vec<usize>, right: &Vec<usize>) -> (merged: Vec<
    usize,
>)
    requires
        is_order_of(entries@, left@),
        is_order_of(entries@, right@),
        is_sorted_order(entries@, left@),
        is_sorted_order(entries@, right@),
        left@.len() + right@.len() <= usize::MAX,
    ensures
        is_order_of(entries@, merged@),
        is_sorted_order(entries@, merged@),
        merged@.len() == left@.len() + right@.len(),
        forall|position: usize| #[trigger]
            merged@.contains(position) <==> left@.contains(position) || right@.contains(position),
{
    let mut merged: Vec<usize> = Vec::new();
    let mut i: usize = 0;
    let mut j: usize = 0;
    while i < left.len() || j < right.len()
        invariant
            i <= left@.len(),
            j <= right@.len(),
            merged@.len() == i + j,
            is_order_of(entries@, left@),
            is_order_of(entries@, right@),
            is_sorted_order(entries@, left@),
            is_sorted_order(entries@, right@),
            is_order_of(entries@, merged@),
            is_sorted_order(entries@, merged@),
            forall|m: int, a: int|
                0 <= m < merged@.len() && i <= a < left@.len() ==> key_le(
                    entries@[(#[trigger] merged@[m]) as int].key@,
                    entries@[(#[trigger] left@[a]) as int].key@,
                ),
            forall|m: int, b: int|
                0 <= m < merged@.len() && j <= b < right@.len() ==> key_le(
                    entries@[(#[trigger] merged@[m]) as int].key@,
                    entries@[(#[trigger] right@[b]) as int].key@,
                ),
            forall|position: usize| #[trigger]
                merged@.contains(position) <==> left@.subrange(0, i as int).contains(position)
                    || right@.subrange(0, j as int).contains(position),
        decreases left@.len() - i + right@.len() - j,
    {
        let from_left = if i == left.len() {
            false
        } else if j == right.len() {
            true
        } else {
            match compare_keys(
                entries[left[i]].key.as_slice(),
                entries[right[j]].key.as_slice(),
            ) {
                KeyOrder::After => false,
                _ => true,
            }
        };
        let ghost before = merged@;
        let taken = if from_left {
            left[i]
        } else {
            right[j]
        };
        merged.push(taken);
        proof {
            let key = entries@[taken as int].key@;
            assert forall|a: int, b: int| 0 <= a < b < merged@.len() implies key_le(
                entries@[(#[trigger] merged@[a]) as int].key@,
                entries@[(#[trigger] merged@[b]) as int].key@,
            ) by {
                if b < before.len() {
                    assert(merged@[a] == before[a]);
                    assert(merged@[b] == before[b]);
                } else {
                    assert(merged@[a] == before[a]);
                }
            }
            if from_left {
                assert forall|m: int, a: int|
                    0 <= m < merged@.len() && i + 1 <= a < left@.len() implies key_le(
                    entries@[(#[trigger] merged@[m]) as int].key@,
                    entries@[(#[trigger] left@[a]) as int].key@,
                ) by {
                    if m < before.len() {
                        assert(merged@[m] == before[m]);
                    }
                }
                assert forall|m: int, b: int|
                    0 <= m < merged@.len() && j <= b < right@.len() implies key_le(
                    entries@[(#[trigger] merged@[m]) as int].key@,
                    entries@[(#[trigger] right@[b]) as int].key@,
                ) by {
                    if m < before.len() {
                        assert(merged@[m] == before[m]);
                    } else {
                        let first = entries@[right@[j as int] as int].key@;
                        if crate::bytes::key_lt(first, key) {
                            lemma_key_lt_asymmetric(first, key);
                        }
                        assert(key_le(key, first));
                        if b > j {
                            lemma_key_le_transitive(key, first, entries@[right@[b] as int].key@);
                        }
                    }
                }
                assert forall|position: usize| #[trigger]
                    merged@.contains(position) <==> left@.subrange(0, i + 1).contains(position)
                        || right@.subrange(0, j as int).contains(position) by {
                    lemma_extended(before, merged@, taken, position);
                    assert(left@.subrange(0, i + 1) =~= left@.subrange(0, i as int).push(taken));
                    lemma_extended(
                        left@.subrange(0, i as int),
                        left@.subrange(0, i + 1),
                        taken,
                        position,
                    );
                }
            } else {
                assert forall|m: int, a: int|
                    0 <= m < merged@.len() && i <= a < left@.len() implies key_le(
                    entries@[(#[trigger] merged@[m]) as int].key@,
                    entries@[(#[trigger] left@[a]) as int].key@,
                ) by {
                    if m < before.len() {
                        assert(merged@[m] == before[m]);
                    } else {
                        let first = entries@[left@[i as int] as int].key@;
                        assert(crate::bytes::key_lt(key, first));
                        lemma_key_lt_asymmetric(key, first);
                        if a > i {
                            lemma_key_le_transitive(key, first, entries@[left@[a] as int].key@);
                        }
                    }
                }
                assert forall|m: int, b: int|
                    0 <= m < merged@.len() && j + 1 <= b < right@.len() implies key_le(
                    entries@[(#[trigger] merged@[m]) as int].key@,
                    entries@[(#[trigger] right@[b]) as int].key@,
                ) by {
                    if m < before.len() {
                        assert(merged@[m] == before[m]);
                    }
                }
                assert forall|position: usize| #[trigger]
                    merged@.contains(position) <==> left@.subrange(0, i as int).contains(position)
                        || right@.subrange(0, j + 1).contains(position) by {
                    lemma_extended(before, merged@, taken, position);
                    assert(right@.subrange(0, j + 1) =~= right@.subrange(0, j as int).push(taken));
                    lemma_extended(
                        right@.subrange(0, j as int),
                        right@.subrange(0, j + 1),
                        taken,
                        position,
                    );
                }
            }
        }
        if from_left {
            i += 1;
        } else {
            j += 1;
        }
    }
    proof {
        assert(left@.subrange(0, i as int) =~= left@);
        assert(right@.subrange(0, j as int) =~= right@);
    }
    merged
}

/// What a sequence holds once an element was added at its end.
proof fn lemma_extended(shorter: Seq<usize>, longer: Seq<usize>, last: usize, position: usize)
    requires
        longer == shorter.push(last),
    ensures
        longer.contains(position) <==> shorter.contains(position) || position == last,
{
    if shorter.contains(position) {
        let i = shorter.index_of(position);
        assert(longer[i] == position);
    }
    if position == last {
        assert(longer[shorter.len() as int] == position);
    }
    if longer.contains(position) {
        let i = longer.index_of(position);
        if i < shorter.len() {
            assert(shorter[i] == position);
        }
    }
}

fn sort_range(entries: &Vec<KeyEntry>, from: usize, to: usize) -> (order: Vec<usize>)
    requires
        from <= to <= entries@.len(),
    ensures
        is_order_of(entries@, order@),
        is_sorted_order(entries@, order@),
        order@.len() == to - from,
        forall|position: usize| #[trigger] order@.contains(position) <==> from <= position < to,
    decreases to - from,
{
    if to - from <= 1 {
        let mut order: Vec<usize> = Vec::new();
        if from < to {
            order.push(from);
            proof {
                assert(order@[0] == from);
            }
        }
        return order;
    }
    let middle = from + (to - from) / 2;
    let left = sort_range(entries, from, middle);
    let right = sort_range(entries, middle, to);
    merge_orders(entries, &left, &right)
}

/// The positions of `entries`, each once, by increasing key.
pub fn sort_entries(entries: &Vec<KeyEntry>) -> (order: Vec<usize>)
    ensures
        is_order_of(entries@, order@),
        is_sorted_order(entries@, order@),
        order@.len() == entries@.len(),
        forall|position: usize| #[trigger]
            order@.contains(position) <==> position < entries@.len(),
{
    sort_range(entries, 0, entries.len())
}

} // verus!
