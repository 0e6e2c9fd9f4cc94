//! Small helpers of the editor tooling: the capability to send snippets,
//! and the lookup of a lint among the lint groups.

use crate::bytes::keys_equal;
use vstd::prelude::*;

verus! {

/// The proof that the client of the editor takes snippets. It cannot be
/// made but by `SnippetCap::new`.
#[derive(Clone, Copy, Debug, PartialEq, Eq)]
pub struct SnippetCap {
    _private: (),
}

impl SnippetCap {
    /// The capability, if and only if snippets are allowed.
    pub fn new(allow_snippets: bool) -> (capability: Option<SnippetCap>)
        ensures
            capability.is_some() == allow_snippets,
    {
        if allow_snippets {
            Some(SnippetCap { _private: () })
        } else {
            None
        }
    }
}

/// A group of lints: the label of the group and the labels of the lints
/// that belong to it.
#[derive(Clone, Debug, PartialEq, Eq)]
pub struct LintGroup {
    pub label: String,
    pub children: Vec<String>,
}

/// Whether two strings are the same.
pub fn strings_equal(a: &str, b: &str) -> (same: bool)
    ensures
        same == (a@ == b@),
{
    let same = keys_equal(a.as_bytes(), b.as_bytes());
    proof {
        vstd::utf8::encode_utf8_decode_utf8(a@);
        vstd::utf8::encode_utf8_decode_utf8(b@);
    }
    same
}

/// `label` is one of `children`.
pub open spec fn has_child(children: Seq<String>, label: Seq<char>) -> bool {
    exists|i: int| 0 <= i < children.len() && (#[trigger] children[i])@ == label
}

/// The position of the first group of `groups` whose label is `label`;
/// the number of groups where there is none.
pub open spec fn first_group(groups: Seq<LintGroup>, label: Seq<char>) -> int
    decreases groups.len(),
{
    if groups.len() == 0 {
        0
    } else if groups[0].label@ == label {
        0
    } else {
        1 + first_group(groups.drop_first(), label)
    }
}

/// `lint` is `lint_is`, or `lint_is` is a group that holds `lint`: the
/// first group of that label counts.
pub open spec fn is_lint_or_in_group(lint: Seq<char>, lint_is: Seq<char>, groups: Seq<LintGroup>) -> bool {
    lint == lint_is || {
        let at = first_group(groups, lint_is);
        at < groups.len() && has_child(groups[at].children@, lint)
    }
}

fn contains_label(children: &Vec<String>, label: &str) -> (found: bool)
    ensures
        found == has_child(children@, label@),
{
    let mut i: usize = 0;
    while i < children.len()
        invariant
            i <= children.len(),
            forall|j: int| 0 <= j < i ==> (#[trigger] children@[j])@ != label@,
        decreases children.len() - i,
    {
        if strings_equal(children[i].as_str(), label) {
            return true;
        }
        i += 1;
    }
    false
}

/// Checks if the given lint is equal or is contained by the other lint which may or may not be a group.
pub fn lint_eq_or_in_group(lint: &str, lint_is: &str, groups: &Vec<LintGroup>) -> (found: bool)
    ensures
        found == is_lint_or_in_group(lint@, lint_is@, groups@),
{
    if strings_equal(lint, lint_is) {
        return true;
    }
    let mut i: usize = 0;
    proof {
        assert(groups@.subrange(0, groups@.len() as int) =~= groups@);
    }
    while i < groups.len()
        invariant
            i <= groups.len(),
            lint@ != lint_is@,
            first_group(groups@, lint_is@) == i + first_group(
                groups@.subrange(i as int, groups@.len() as int),
                lint_is@,
            ),
        decreases groups.len() - i,
    {
        let ghost rest = groups@.subrange(i as int, groups@.len() as int);
        proof {
            assert(rest[0] == groups@[i as int]);
            assert(rest.drop_first() =~= groups@.subrange(i + 1, groups@.len() as int));
        }
        if strings_equal(groups[i].label.as_str(), lint_is) {
            proof {
                assert(first_group(rest, lint_is@) == 0);
            }
            return contains_label(&groups[i].children, lint);
        }
        proof {
            assert(first_group(rest, lint_is@) == 1 + first_group(rest.drop_first(), lint_is@));
        }
        i += 1;
    }
    false
}

} // verus!
