//! Byte strings as database keys: their order, equality and prefixes.
//!
//! Keys are compared byte by byte, a proper prefix coming before every
//! string that extends it. This is the order in which the posting databases
//! keep their entries.

use vstd::prelude::*;

verus! {

/// `a` and `b` agree before position `at`, and `a` is the smaller one there:
/// either `a` ends at `at` and `b` goes on, or `a` holds the smaller byte.
pub open spec fn smaller_at(a: Seq<u8>, b: Seq<u8>, at: int) -> bool {
    &&& 0 <= at <= a.len()
    &&& at <= b.len()
    &&& forall|j: int| 0 <= j < at ==> a[j] == b[j]
    &&& (at == a.len() && at < b.len()) || (at < a.len() && at < b.len() && a[at] < b[at])
}

/// The strict lexicographic order on byte strings.
pub open spec fn key_lt(a: Seq<u8>, b: Seq<u8>) -> bool {
    exists|at: int| smaller_at(a, b, at)
}

/// `prefix` is an initial segment of `word` (possibly all of it).
pub open spec fn is_prefix(prefix: Seq<u8>, word: Seq<u8>) -> bool {
    &&& prefix.len() <= word.len()
    &&& word.subrange(0, prefix.len() as int) == prefix
}

/// No key is smaller than itself.
pub proof fn lemma_key_lt_irreflexive(a: Seq<u8>)
    ensures
        !key_lt(a, a),
{
}

/// The order on keys is transitive.
pub proof fn lemma_key_lt_transitive(a: Seq<u8>, b: Seq<u8>, c: Seq<u8>)
    requires
        key_lt(a, b),
        key_lt(b, c),
    ensures
        key_lt(a, c),
{
    let i = choose|at: int| smaller_at(a, b, at);
    let j = choose|at: int| smaller_at(b, c, at);
    if i <= j {
        assert(smaller_at(a, c, i));
    } else {
        assert(smaller_at(a, c, j));
    }
}

/// Two keys cannot each be smaller than the other.
pub proof fn lemma_key_lt_asymmetric(a: Seq<u8>, b: Seq<u8>)
    requires
        key_lt(a, b),
    ensures
        !key_lt(b, a),
{
    if key_lt(b, a) {
        lemma_key_lt_transitive(a, b, a);
        lemma_key_lt_irreflexive(a);
    }
}

/// Of two keys that agree before position `at`, one is smaller than the
/// other, or they are the same.
pub proof fn lemma_key_order_total_from(a: Seq<u8>, b: Seq<u8>, at: int)
    requires
        0 <= at <= a.len(),
        at <= b.len(),
        forall|j: int| 0 <= j < at ==> a[j] == b[j],
    ensures
        key_lt(a, b) || a == b || key_lt(b, a),
    decreases a.len() - at,
{
    if at == a.len() {
        if at == b.len() {
            assert(a =~= b);
        } else {
            assert(smaller_at(a, b, at));
        }
    } else if at == b.len() {
        assert(smaller_at(b, a, at));
    } else if a[at] < b[at] {
        assert(smaller_at(a, b, at));
    } else if b[at] < a[at] {
        assert(smaller_at(b, a, at));
    } else {
        lemma_key_order_total_from(a, b, at + 1);
    }
}

/// The order on keys is total.
pub proof fn lemma_key_order_total(a: Seq<u8>, b: Seq<u8>)
    ensures
        key_lt(a, b) || a == b || key_lt(b, a),
{
    lemma_key_order_total_from(a, b, 0);
}

/// `a` is not greater than `b`.
pub open spec fn key_le(a: Seq<u8>, b: Seq<u8>) -> bool {
    !key_lt(b, a)
}

/// The order on keys, with equality, is transitive.
pub proof fn lemma_key_le_transitive(a: Seq<u8>, b: Seq<u8>, c: Seq<u8>)
    requires
        key_le(a, b),
        key_le(b, c),
    ensures
        key_le(a, c),
{
    if key_lt(c, a) {
        lemma_key_order_total(a, b);
        if a != b {
            lemma_key_lt_transitive(c, a, b);
        }
    }
}

/// A prefix is not greater than a key that begins with it.
pub proof fn lemma_prefix_not_greater(prefix: Seq<u8>, word: Seq<u8>)
    requires
        is_prefix(prefix, word),
    ensures
        key_le(prefix, word),
{
    if key_lt(word, prefix) {
        let at = choose|at: int| smaller_at(word, prefix, at);
        if at < word.len() {
            assert(word.subrange(0, prefix.len() as int)[at] == prefix[at]);
        }
    }
}

/// The keys that begin with a prefix stand together in the order: a key
/// between two of them begins with the prefix too.
pub proof fn lemma_prefix_run(prefix: Seq<u8>, first: Seq<u8>, between: Seq<u8>, last: Seq<u8>)
    requires
        is_prefix(prefix, first),
        is_prefix(prefix, last),
        key_le(first, between),
        key_le(between, last),
    ensures
        is_prefix(prefix, between),
{
    lemma_key_order_total(first, between);
    lemma_key_order_total(between, last);
    if first != between && between != last {
        let i = choose|at: int| smaller_at(first, between, at);
        let j = choose|at: int| smaller_at(between, last, at);
        let length = prefix.len() as int;
        assert forall|k: int| 0 <= k < length implies first[k] == prefix[k] && last[k]
            == prefix[k] by {
            assert(first.subrange(0, length)[k] == prefix[k]);
            assert(last.subrange(0, length)[k] == prefix[k]);
        }
        if i >= length {
            assert(between.subrange(0, length) =~= prefix);
        } else if j >= length {
            assert(between.subrange(0, length) =~= prefix);
        } else {
            assert(first[i] < between[i]);
            if i < j {
                assert(between[i] == last[i]);
            } else if j < i {
                assert(first[j] == between[j]);
            }
        }
    }
}

/// How one key stands to another in the order of the databases.
#[derive(Clone, Copy, Debug, PartialEq, Eq)]
pub enum KeyOrder {
    Before,
    Same,
    After,
}

/// Compares two keys byte by byte.
pub fn compare_keys(a: &[u8], b: &[u8]) -> (order: KeyOrder)
    ensures
        order == KeyOrder::Before <==> key_lt(a@, b@),
        order == KeyOrder::Same <==> a@ == b@,
        order == KeyOrder::After <==> key_lt(b@, a@),
{
    let mut i: usize = 0;
    while i < a.len() && i < b.len()
        invariant
            i <= a.len(),
            i <= b.len(),
            forall|j: int| 0 <= j < i ==> a@[j] == b@[j],
        decreases a.len() - i,
    {
        if a[i] < b[i] {
            proof {
                assert(smaller_at(a@, b@, i as int));
                lemma_key_lt_asymmetric(a@, b@);
            }
            return KeyOrder::Before;
        }
        if a[i] > b[i] {
            proof {
                assert(smaller_at(b@, a@, i as int));
                lemma_key_lt_asymmetric(b@, a@);
            }
            return KeyOrder::After;
        }
        i += 1;
    }
    if i < b.len() {
        proof {
            assert(smaller_at(a@, b@, i as int));
            lemma_key_lt_asymmetric(a@, b@);
        }
        KeyOrder::Before
    } else if i < a.len() {
        proof {
            assert(smaller_at(b@, a@, i as int));
            lemma_key_lt_asymmetric(b@, a@);
        }
        KeyOrder::After
    } else {
        proof {
            assert(a@ =~= b@);
            lemma_key_lt_irreflexive(a@);
        }
        KeyOrder::Same
    }
}

/// Whether two byte strings are the same.
pub fn keys_equal(a: &[u8], b: &[u8]) -> (same: bool)
    ensures
        same == (a@ == b@),
{
    if a.len() != b.len() {
        return false;
    }
    let mut i: usize = 0;
    while i < a.len()
        invariant
            i <= a.len(),
            a.len() == b.len(),
            forall|j: int| 0 <= j < i ==> a@[j] == b@[j],
        decreases a.len() - i,
    {
        if a[i] != b[i] {
            return false;
        }
        i += 1;
    }
    proof {
        assert(a@ =~= b@);
    }
    true
}

/// Whether `word` begins with `prefix`.
pub fn starts_with(word: &[u8], prefix: &[u8]) -> (found: bool)
    ensures
        found == is_prefix(prefix@, word@),
{
    if prefix.len() > word.len() {
        return false;
    }
    let mut i: usize = 0;
    while i < prefix.len()
        invariant
            i <= prefix.len(),
            prefix.len() <= word.len(),
            forall|j: int| 0 <= j < i ==> word@[j] == prefix@[j],
        decreases prefix.len() - i,
    {
        if word[i] != prefix[i] {
            proof {
                assert(word@.subrange(0, prefix@.len() as int)[i as int] == word@[i as int]);
            }
            return false;
        }
        i += 1;
    }
    proof {
        assert(word@.subrange(0, prefix@.len() as int) =~= prefix@);
    }
    true
}

/// A copy of the bytes from `from` up to `to`.
pub fn copy_range(bytes: &[u8], from: usize, to: usize) -> (copy: Vec<u8>)
    requires
        from <= to <= bytes.len(),
    ensures
        copy@ == bytes@.subrange(from as int, to as int),
{
    let mut copy: Vec<u8> = Vec::new();
    let mut i: usize = from;
    while i < to
        invariant
            from <= i <= to,
            to <= bytes.len(),
            copy@ == bytes@.subrange(from as int, i as int),
        decreases to - i,
    {
        copy.push(bytes[i]);
        proof {
            assert(copy@ =~= bytes@.subrange(from as int, i + 1));
        }
        i += 1;
    }
    copy
}

/// A copy of a byte string.
pub fn copy_bytes(bytes: &[u8]) -> (copy: Vec<u8>)
    ensures
        copy@ == bytes@,
{
    let copy = copy_range(bytes, 0, bytes.len());
    proof {
        assert(bytes@.subrange(0, bytes@.len() as int) =~= bytes@);
    }
    copy
}

} // verus!
