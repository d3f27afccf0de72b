//! Splitting of text into tokens.
//!
//! A token is a maximal run of characters that are not whitespace.

use crate::utf8::{char_offsets, substring};
use vstd::prelude::*;
use vstd::std_specs::iter::IteratorSpec;

verus! {

/// Whether `c` is whitespace: what `char::is_whitespace` answers for it.
pub uninterp spec fn is_whitespace(c: char) -> bool;

/// `char::is_whitespace` tells whether a character has the Unicode property
/// `White_Space`. Its answer depends on the character alone; it is taken here
/// as the meaning of [`is_whitespace`].
pub assume_specification[ char::is_whitespace ](c: char) -> (space: bool)
    ensures
        space == is_whitespace(c),
;

/// The number of characters before the first whitespace of `text`.
pub open spec fn word_len(text: Seq<char>) -> int
    decreases text.len(),
{
    if text.len() == 0 || is_whitespace(text[0]) {
        0
    } else {
        1 + word_len(text.drop_first())
    }
}

/// The tokens of `text` in their order: the maximal runs of characters that
/// are not whitespace.
pub open spec fn words(text: Seq<char>) -> Seq<Seq<char>>
    decreases text.len(),
    via words_decreases
{
    if text.len() == 0 {
        Seq::empty()
    } else if is_whitespace(text[0]) {
        words(text.drop_first())
    } else {
        seq![text.take(word_len(text))] + words(text.skip(word_len(text)))
    }
}

#[via_fn]
proof fn words_decreases(text: Seq<char>) {
    lemma_word_len_bounds(text);
}

/// A run of `n` characters without whitespace, followed by whitespace or the
/// end of the text, is a word of `n` characters.
proof fn lemma_word_len(text: Seq<char>, n: int)
    requires
        0 <= n <= text.len(),
        forall|j: int| 0 <= j < n ==> !is_whitespace(#[trigger] text[j]),
        n == text.len() || is_whitespace(text[n]),
    ensures
        word_len(text) == n,
    decreases n,
{
    if n > 0 {
        let rest = text.drop_first();
        assert forall|j: int| 0 <= j < n - 1 implies !is_whitespace(#[trigger] rest[j]) by {
            assert(rest[j] == text[j + 1]);
        }
        lemma_word_len(rest, n - 1);
    }
}

/// A word is not empty, holds no whitespace, and what follows it does not
/// continue it.
pub proof fn lemma_word_len_bounds(text: Seq<char>)
    ensures
        0 <= word_len(text) <= text.len(),
        text.len() > 0 && !is_whitespace(text[0]) ==> word_len(text) > 0,
        forall|j: int| 0 <= j < word_len(text) ==> !is_whitespace(#[trigger] text[j]),
        word_len(text) < text.len() ==> is_whitespace(text[word_len(text)]),
    decreases text.len(),
{
    if text.len() > 0 && !is_whitespace(text[0]) {
        let rest = text.drop_first();
        lemma_word_len_bounds(rest);
        assert forall|j: int| 0 <= j < word_len(text) implies !is_whitespace(#[trigger] text[j]) by {
            if j > 0 {
                assert(text[j] == rest[j - 1]);
            }
        }
    }
}

/// No token is empty, and no token holds whitespace.
pub proof fn lemma_words_hold_no_whitespace(text: Seq<char>, i: int)
    requires
        0 <= i < words(text).len(),
    ensures
        words(text)[i].len() > 0,
        forall|j: int| 0 <= j < words(text)[i].len() ==> !is_whitespace(#[trigger] words(text)[i][j]),
    decreases text.len(),
{
    if text.len() == 0 {
    } else if is_whitespace(text[0]) {
        lemma_words_hold_no_whitespace(text.drop_first(), i);
    } else {
        lemma_word_len_bounds(text);
        if i > 0 {
            lemma_words_hold_no_whitespace(text.skip(word_len(text)), i - 1);
        }
    }
}

/// The tokens of `line`, each a view into the storage of `line`.
pub fn split_words<'a>(line: &'a str) -> (found: Vec<&'a str>)
    ensures
        found.deep_view() == words(line@),
{
    let ghost text = line@;
    let offsets = char_offsets(line);
    let total = offsets.len();
    let mut found: Vec<&'a str> = Vec::new();
    let mut chars = line.chars();
    // The position of the next character, and where the token began that is
    // being read, if one is.
    let mut at: usize = 0;
    let mut start: usize = 0;
    let mut in_word = false;
    proof {
        assert(text.skip(0) == text);
        assert(found.deep_view() + words(text.skip(0)) == words(text));
    }
    loop
        invariant
            text == line@,
            offsets@ == crate::utf8::byte_offsets(text),
            chars.obeys_prophetic_iter_laws(),
            chars.decrease() is Some,
            total == text.len(),
            at <= total,
            chars.remaining() == text.skip(at as int),
            in_word ==> start < at,
            in_word ==> forall|j: int| start <= j < at ==> !is_whitespace(#[trigger] text[j]),
            words(text) == found.deep_view() + words(
                text.skip(
                    if in_word {
                        start as int
                    } else {
                        at as int
                    },
                ),
            ),
        ensures
            at == text.len(),
            in_word ==> start < at,
            in_word ==> forall|j: int| start <= j < at ==> !is_whitespace(#[trigger] text[j]),
            words(text) == found.deep_view() + words(
                text.skip(
                    if in_word {
                        start as int
                    } else {
                        at as int
                    },
                ),
            ),
        decreases chars.decrease()->0,
    {
        let ghost before = found.deep_view();
        match chars.next() {
            None => {
                break ;
            },
            Some(c) => {
                assert(c == text[at as int]);
                assert(text.skip(at as int).drop_first() == text.skip(at + 1));
                if c.is_whitespace() {
                    if in_word {
                        let word = substring(line, &offsets, start, at);
                        found.push(word);
                        in_word = false;
                        proof {
                            lemma_word_found(text, start as int, at as int);
                            assert(found.deep_view() == before.push(word@));
                        }
                    }
                } else if !in_word {
                    start = at;
                    in_word = true;
                }
                at += 1;
            },
        }
    }
    if in_word {
        let ghost before = found.deep_view();
        let word = substring(line, &offsets, start, at);
        found.push(word);
        proof {
            lemma_word_found(text, start as int, at as int);
            assert(found.deep_view() == before.push(word@));
        }
    }
    proof {
        assert(text.skip(text.len() as int) == Seq::<char>::empty());
    }
    found
}

/// Where a run without whitespace from `start` to `end` is followed by
/// whitespace or the end of the text, the tokens from `start` on are that run
/// and the tokens behind it.
proof fn lemma_word_found(text: Seq<char>, start: int, end: int)
    requires
        0 <= start < end <= text.len(),
        forall|j: int| start <= j < end ==> !is_whitespace(#[trigger] text[j]),
        end == text.len() || is_whitespace(text[end]),
    ensures
        words(text.skip(start)) == seq![text.subrange(start, end)] + words(text.skip(end)),
        end < text.len() ==> words(text.skip(end)) == words(text.skip(end + 1)),
{
    let tail = text.skip(start);
    assert forall|j: int| 0 <= j < end - start implies !is_whitespace(#[trigger] tail[j]) by {
        assert(tail[j] == text[start + j]);
    }
    lemma_word_len(tail, end - start);
    assert(tail.take(end - start) == text.subrange(start, end));
    assert(tail.skip(end - start) == text.skip(end));
    if end < text.len() {
        assert(text.skip(end).drop_first() == text.skip(end + 1));
    }
}

} // verus!
