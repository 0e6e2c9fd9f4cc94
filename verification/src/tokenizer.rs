//! Cutting the serialized value of a field into words.
//!
//! A word is a maximal run of letters, digits and bytes above the ASCII
//! range, written in lower case. A byte that the settings list as a
//! separator ends a word like any other separator. A term of the dictionary
//! is one word wherever it stands in the text and is followed by a
//! separator or by the end of the text.

use crate::settings::Settings;
use vstd::prelude::*;

verus! {

/// `byte` can stand inside a word.
pub open spec fn is_word_byte(byte: u8, separators: Seq<u8>) -> bool {
    &&& (48 <= byte <= 57) || (65 <= byte <= 90) || (97 <= byte <= 122) || byte >= 128
    &&& !separators.contains(byte)
}

/// The lower-case form of an ASCII letter; any other byte as it is.
pub open spec fn lowercase(byte: u8) -> u8 {
    if 65 <= byte <= 90 {
        (byte + 32) as u8
    } else {
        byte
    }
}

/// A word with its ASCII letters in lower case.
pub open spec fn normalized(word: Seq<u8>) -> Seq<u8> {
    Seq::new(word.len(), |i: int| lowercase(word[i]))
}

/// The end of the run of word bytes that starts at `from`.
pub open spec fn word_end(text: Seq<u8>, from: int, separators: Seq<u8>) -> int
    decreases text.len() - from,
{
    if 0 <= from < text.len() && is_word_byte(text[from], separators) {
        word_end(text, from + 1, separators)
    } else {
        from
    }
}

/// `term` stands in `text` at `at`, whatever the case of its letters, and
/// no word byte follows it.
pub open spec fn term_matches(text: Seq<u8>, at: int, term: Seq<u8>, separators: Seq<u8>) -> bool {
    &&& term.len() > 0
    &&& 0 <= at
    &&& at + term.len() <= text.len()
    &&& normalized(text.subrange(at, at + term.len())) == term
    &&& (at + term.len() == text.len() || !is_word_byte(text[at + term.len()], separators))
}

/// The length of the first term of the dictionary, from index `first` on,
/// that stands in `text` at `at`; zero if none does.
pub open spec fn dictionary_match(
    text: Seq<u8>,
    at: int,
    dictionary: Seq<Vec<u8>>,
    first: int,
    separators: Seq<u8>,
) -> nat
    decreases dictionary.len() - first,
{
    if first < 0 || first >= dictionary.len() {
        0
    } else if term_matches(text, at, dictionary[first]@, separators) {
        dictionary[first]@.len()
    } else {
        dictionary_match(text, at, dictionary, first + 1, separators)
    }
}

/// The end of the word that starts at `at`; `at` itself where no word
/// starts there.
pub open spec fn token_end(text: Seq<u8>, at: int, settings: &Settings) -> int {
    let matched = dictionary_match(text, at, settings.dictionary@, 0, settings.separators@);
    if matched > 0 {
        at + matched
    } else {
        word_end(text, at, settings.separators@)
    }
}

/// The words of `text` from position `at` on, in the order of the text.
pub open spec fn tokens_from(text: Seq<u8>, at: int, settings: &Settings) -> Seq<Seq<u8>>
    decreases text.len() - at,
{
    if at < 0 || at >= text.len() {
        Seq::empty()
    } else {
        let end = token_end(text, at, settings);
        if at < end <= text.len() {
            seq![normalized(text.subrange(at, end))] + tokens_from(text, end, settings)
        } else {
            tokens_from(text, at + 1, settings)
        }
    }
}

/// The words of `text`, in the order of the text.
pub open spec fn tokens(text: Seq<u8>, settings: &Settings) -> Seq<Seq<u8>> {
    tokens_from(text, 0, settings)
}

/// The byte strings that a vector of byte vectors holds.
pub open spec fn words_of(words: Seq<Vec<u8>>) -> Seq<Seq<u8>> {
    Seq::new(words.len(), |i: int| words[i]@)
}

fn byte_is_listed(bytes: &Vec<u8>, byte: u8) -> (found: bool)
    ensures
        found == bytes@.contains(byte),
{
    let mut i: usize = 0;
    while i < bytes.len()
        invariant
            i <= bytes.len(),
            forall|j: int| 0 <= j < i ==> bytes@[j] != byte,
        decreases bytes.len() - i,
    {
        if bytes[i] == byte {
            return true;
        }
        i += 1;
    }
    false
}

fn is_word(byte: u8, separators: &Vec<u8>) -> (found: bool)
    ensures
        found == is_word_byte(byte, separators@),
{
    let plain = (48 <= byte && byte <= 57) || (65 <= byte && byte <= 90) || (97 <= byte && byte
        <= 122) || byte >= 128;
    plain && !byte_is_listed(separators, byte)
}

fn lower(byte: u8) -> (small: u8)
    ensures
        small == lowercase(byte),
{
    if 65 <= byte && byte <= 90 {
        byte + 32
    } else {
        byte
    }
}

fn find_word_end(text: &[u8], from: usize, separators: &Vec<u8>) -> (end: usize)
    requires
        from <= text.len(),
    ensures
        end == word_end(text@, from as int, separators@),
        from <= end <= text.len(),
{
    let mut end = from;
    while end < text.len() && is_word(text[end], separators)
        invariant
            from <= end <= text.len(),
            word_end(text@, from as int, separators@) == word_end(text@, end as int, separators@),
        decreases text.len() - end,
    {
        end += 1;
    }
    end
}

/// The bytes of `text` from `from` up to `to`, with letters in lower case.
pub fn normalize_range(text: &[u8], from: usize, to: usize) -> (word: Vec<u8>)
    requires
        from <= to <= text.len(),
    ensures
        word@ == normalized(text@.subrange(from as int, to as int)),
{
    let mut word: Vec<u8> = Vec::new();
    let mut i: usize = from;
    while i < to
        invariant
            from <= i <= to,
            to <= text.len(),
            word@ == normalized(text@.subrange(from as int, i as int)),
        decreases to - i,
    {
        word.push(lower(text[i]));
        proof {
            assert(word@ =~= normalized(text@.subrange(from as int, i + 1)));
        }
        i += 1;
    }
    word
}

fn term_matches_at(text: &[u8], at: usize, term: &Vec<u8>, separators: &Vec<u8>) -> (found: bool)
    requires
        at <= text.len(),
    ensures
        found == term_matches(text@, at as int, term@, separators@),
{
    if term.len() == 0 || term.len() > text.len() - at {
        return false;
    }
    let end = at + term.len();
    let mut i: usize = 0;
    while i < term.len()
        invariant
            i <= term.len(),
            end == at + term.len(),
            end <= text.len(),
            forall|j: int| 0 <= j < i ==> lowercase(text@[at + j]) == term@[j],
        decreases term.len() - i,
    {
        if lower(text[at + i]) != term[i] {
            proof {
                assert(normalized(text@.subrange(at as int, end as int))[i as int] == lowercase(
                    text@[at + i],
                ));
            }
            return false;
        }
        i += 1;
    }
    proof {
        assert(normalized(text@.subrange(at as int, end as int)) =~= term@);
    }
    end == text.len() || !is_word(text[end], separators)
}

fn find_dictionary_match(text: &[u8], at: usize, settings: &Settings) -> (matched: usize)
    requires
        at <= text.len(),
    ensures
        matched == dictionary_match(
            text@,
            at as int,
            settings.dictionary@,
            0,
            settings.separators@,
        ),
        at + matched <= text.len(),
{
    let mut first: usize = 0;
    while first < settings.dictionary.len()
        invariant
            first <= settings.dictionary.len(),
            at <= text.len(),
            dictionary_match(text@, at as int, settings.dictionary@, 0, settings.separators@)
                == dictionary_match(
                text@,
                at as int,
                settings.dictionary@,
                first as int,
                settings.separators@,
            ),
        decreases settings.dictionary.len() - first,
    {
        if term_matches_at(text, at, &settings.dictionary[first], &settings.separators) {
            return settings.dictionary[first].len();
        }
        first += 1;
    }
    0
}

/// Cuts `text` into its words.
pub fn tokenize(text: &[u8], settings: &Settings) -> (words: Vec<Vec<u8>>)
    ensures
        words_of(words@) == tokens(text@, settings),
{
    let mut words: Vec<Vec<u8>> = Vec::new();
    let mut at: usize = 0;
    proof {
        assert(words_of(words@) + tokens_from(text@, 0, settings) =~= tokens(text@, settings));
    }
    while at < text.len()
        invariant
            at <= text.len(),
            words_of(words@) + tokens_from(text@, at as int, settings) == tokens(text@, settings),
        decreases text.len() - at,
    {
        let matched = find_dictionary_match(text, at, settings);
        let end = if matched > 0 {
            at + matched
        } else {
            find_word_end(text, at, &settings.separators)
        };
        assert(end == token_end(text@, at as int, settings));
        if at < end {
            let ghost before = words@;
            let word = normalize_range(text, at, end);
            words.push(word);
            proof {
                assert(words_of(words@) =~= words_of(before) + seq![
                    normalized(text@.subrange(at as int, end as int)),
                ]);
                assert(words_of(words@) + tokens_from(text@, end as int, settings) =~= words_of(
                    before,
                ) + tokens_from(text@, at as int, settings));
            }
            at = end;
        } else {
            at += 1;
        }
    }
    proof {
        assert(words_of(words@) + Seq::<Seq<u8>>::empty() =~= words_of(words@));
    }
    words
}

} // verus!
