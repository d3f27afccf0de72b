//! Character n-grams of a string.
//!
//! For a text and a range of lengths `min_n ..= max_n`, the n-grams are all
//! substrings whose length in characters lies in the range. They are listed
//! anchor by anchor: first those that begin at the first character, then those
//! that begin at the second, and so on; at one anchor the longest comes first.
//!
//! [`ngrams`] defines that list. [`NGrams`] produces it one item at a time,
//! each item a view into the storage of the text, cut at character offsets so
//! that no multi-byte character is ever split.

use crate::utf8::{byte_offsets, char_offsets, substring};
use vstd::prelude::*;

verus! {

/// The longest n-gram that can begin where `rest` characters are left: `max_n`
/// characters, or all that are left if those are fewer.
pub open spec fn longest_at(rest: int, max_n: int) -> int {
    if max_n <= rest {
        max_n
    } else {
        rest
    }
}

/// The number of n-grams that begin at one anchor with `rest` characters from
/// it to the end of the text.
pub open spec fn count_at(rest: int, min_n: int, max_n: int) -> int {
    if longest_at(rest, max_n) < min_n {
        0
    } else {
        longest_at(rest, max_n) - min_n + 1
    }
}

/// The n-grams that begin at character `i` of `text`, longest first.
pub open spec fn ngrams_at(text: Seq<char>, min_n: int, max_n: int, i: int) -> Seq<Seq<char>> {
    let longest = longest_at(text.len() - i, max_n);
    Seq::new(
        count_at(text.len() - i, min_n, max_n) as nat,
        |j: int| text.subrange(i, i + longest - j),
    )
}

/// The n-grams that begin at character `i` of `text` or behind it.
pub open spec fn ngrams_from(text: Seq<char>, min_n: int, max_n: int, i: int) -> Seq<Seq<char>>
    decreases text.len() - i,
{
    if i >= text.len() {
        Seq::empty()
    } else {
        ngrams_at(text, min_n, max_n, i) + ngrams_from(text, min_n, max_n, i + 1)
    }
}

/// All n-grams of `text` with between `min_n` and `max_n` characters, in the
/// order in which [`NGrams`] produces them.
pub open spec fn ngrams(text: Seq<char>, min_n: int, max_n: int) -> Seq<Seq<char>> {
    ngrams_from(text, min_n, max_n, 0)
}

/// The sum of [`count_at`] over the anchors `i`, `i + 1`, ... of a text of
/// `len` characters.
pub open spec fn count_from(len: int, min_n: int, max_n: int, i: int) -> int
    decreases len - i,
{
    if i >= len {
        0
    } else {
        count_at(len - i, min_n, max_n) + count_from(len, min_n, max_n, i + 1)
    }
}

/// Where fewer than `min_n` characters are left, no n-gram begins any more.
pub proof fn lemma_short_rest_is_empty(text: Seq<char>, min_n: int, max_n: int, i: int)
    requires
        text.len() - i < min_n,
    ensures
        ngrams_from(text, min_n, max_n, i) == Seq::<Seq<char>>::empty(),
    decreases text.len() - i,
{
    if i < text.len() {
        lemma_short_rest_is_empty(text, min_n, max_n, i + 1);
        assert(ngrams_at(text, min_n, max_n, i) == Seq::<Seq<char>>::empty());
    }
}

/// The number of n-grams from an anchor on is the sum of the counts of the
/// anchors.
pub proof fn lemma_count_from(text: Seq<char>, min_n: int, max_n: int, i: int)
    ensures
        ngrams_from(text, min_n, max_n, i).len() == count_from(text.len() as int, min_n, max_n, i),
    decreases text.len() - i,
{
    if i < text.len() {
        lemma_count_from(text, min_n, max_n, i + 1);
    }
}

/// The generator emits exactly `count_at(len - i)` items for each anchor `i`,
/// summed over all anchors of the text.
pub proof fn lemma_ngram_count(text: Seq<char>, min_n: int, max_n: int)
    ensures
        ngrams(text, min_n, max_n).len() == count_from(text.len() as int, min_n, max_n, 0),
{
    lemma_count_from(text, min_n, max_n, 0);
}

/// Every n-gram is a run of consecutive characters of the text, of a length in
/// the range.
pub proof fn lemma_ngrams_are_substrings(
    text: Seq<char>,
    min_n: int,
    max_n: int,
    i: int,
    k: int,
) -> (at: (int, int))
    requires
        1 <= min_n <= max_n,
        0 <= i,
        0 <= k < ngrams_from(text, min_n, max_n, i).len(),
    ensures
        i <= at.0,
        min_n <= at.1 <= max_n,
        at.0 + at.1 <= text.len(),
        ngrams_from(text, min_n, max_n, i)[k] == text.subrange(at.0, at.0 + at.1),
    decreases text.len() - i,
{
    let here = ngrams_at(text, min_n, max_n, i);
    if k < here.len() {
        (i, longest_at(text.len() - i, max_n) - k)
    } else {
        lemma_ngrams_are_substrings(text, min_n, max_n, i + 1, k - here.len())
    }
}

/// With `min_n == max_n == k`, the anchors from `i` on contribute the windows
/// of width `k` that begin at `i`, `i + 1`, ...
proof fn lemma_fixed_width_from(text: Seq<char>, k: int, i: int)
    requires
        1 <= k,
        0 <= i,
        i + k <= text.len() + 1,
    ensures
        ngrams_from(text, k, k, i) == Seq::new(
            (text.len() - k + 1 - i) as nat,
            |j: int| text.subrange(i + j, i + j + k),
        ),
    decreases text.len() - i,
{
    let windows = Seq::new(
        (text.len() - k + 1 - i) as nat,
        |j: int| text.subrange(i + j, i + j + k),
    );
    if i + k > text.len() {
        lemma_short_rest_is_empty(text, k, k, i);
        assert(windows == Seq::<Seq<char>>::empty());
    } else {
        lemma_fixed_width_from(text, k, i + 1);
        assert(ngrams_at(text, k, k, i) == seq![text.subrange(i, i + k)]);
        assert(ngrams_from(text, k, k, i) == windows);
    }
}

/// With `min_n == max_n == k` the n-grams are a sliding window of width `k`:
/// one item per position at which `k` characters are left, none if the text is
/// shorter than `k`.
pub proof fn lemma_fixed_width_is_sliding_window(text: Seq<char>, k: int)
    requires
        1 <= k,
    ensures
        text.len() >= k ==> ngrams(text, k, k) == Seq::new(
            (text.len() - k + 1) as nat,
            |i: int| text.subrange(i, i + k),
        ),
        text.len() < k ==> ngrams(text, k, k) == Seq::<Seq<char>>::empty(),
{
    if text.len() >= k {
        lemma_fixed_width_from(text, k, 0);
        assert(ngrams(text, k, k) == Seq::new(
            (text.len() - k + 1) as nat,
            |i: int| text.subrange(i, i + k),
        ));
    } else {
        lemma_short_rest_is_empty(text, k, k, 0);
    }
}

/// The state of a generator: where in the text it stands and which n-gram it
/// will try next.
pub struct Cursor {
    /// The text whose n-grams are generated.
    pub text: Seq<char>,
    /// The least length of an n-gram, in characters.
    pub min_n: int,
    /// The greatest length of an n-gram, in characters.
    pub max_n: int,
    /// The position of the anchor: the character at which the next n-grams
    /// begin.
    pub start: int,
    /// The candidate length: the next n-gram at this anchor has this many
    /// characters. Below `min_n` the anchor has no n-gram left.
    pub width: int,
}

impl Cursor {
    /// The state before the first n-gram of `text`.
    pub open spec fn initial(text: Seq<char>, min_n: int, max_n: int) -> Cursor {
        Cursor { text, min_n, max_n, start: 0, width: longest_at(text.len() as int, max_n) }
    }

    /// The number of characters from the anchor to the end of the text.
    pub open spec fn rest(self) -> int {
        self.text.len() - self.start
    }

    /// The states that a generator can be in.
    pub open spec fn wf(self) -> bool {
        &&& 1 <= self.min_n <= self.max_n
        &&& 0 <= self.start <= self.text.len()
        &&& 0 <= self.width
        &&& self.width >= self.min_n ==> self.width <= longest_at(self.rest(), self.max_n)
    }

    /// The state with the anchor moved on by one character, as far as the
    /// text goes.
    pub open spec fn moved(self) -> Cursor {
        Cursor {
            start: if self.start < self.text.len() {
                self.start + 1
            } else {
                self.start
            },
            ..self
        }
    }

    /// One step of the generator: the state after the step, and the n-gram
    /// that the step emits, if any.
    ///
    /// While the candidate length is in range, the step emits the candidate at
    /// the anchor and shortens the candidate by one character. Otherwise it
    /// moves the anchor on. If fewer than `min_n` characters are left there,
    /// the text is exhausted; else the step emits the longest n-gram at the
    /// new anchor.
    pub open spec fn step(self) -> (Cursor, Option<Seq<char>>) {
        if self.width >= self.min_n {
            (
                Cursor { width: self.width - 1, ..self },
                Some(self.text.subrange(self.start, self.start + self.width)),
            )
        } else if self.moved().rest() < self.min_n {
            (self.moved(), None)
        } else {
            let at = self.moved();
            let longest = longest_at(at.rest(), at.max_n);
            (
                Cursor { width: longest - 1, ..at },
                Some(at.text.subrange(at.start, at.start + longest)),
            )
        }
    }

    /// The n-grams that the generator has yet to emit, in order.
    pub open spec fn remaining(self) -> Seq<Seq<char>> {
        let here = if self.width >= self.min_n {
            Seq::new(
                (self.width - self.min_n + 1) as nat,
                |j: int| self.text.subrange(self.start, self.start + self.width - j),
            )
        } else {
            Seq::empty()
        };
        here + ngrams_from(self.text, self.min_n, self.max_n, self.start + 1)
    }

    /// A fresh generator has all n-grams of its text before it.
    pub proof fn lemma_initial(text: Seq<char>, min_n: int, max_n: int)
        requires
            1 <= min_n <= max_n,
        ensures
            Cursor::initial(text, min_n, max_n).wf(),
            Cursor::initial(text, min_n, max_n).remaining() == ngrams(text, min_n, max_n),
    {
        let c = Cursor::initial(text, min_n, max_n);
        if c.width >= min_n {
            assert(c.remaining() == ngrams(text, min_n, max_n));
        } else {
            lemma_short_rest_is_empty(text, min_n, max_n, 0);
            lemma_short_rest_is_empty(text, min_n, max_n, 1);
        }
    }

    /// A step emits the first of the remaining n-grams and leaves the others;
    /// it emits nothing exactly when none remains, and then none remains
    /// afterwards either.
    pub proof fn lemma_step(self)
        requires
            self.wf(),
        ensures
            self.step().0.wf(),
            self.step().0.text == self.text,
            self.step().0.min_n == self.min_n,
            self.step().0.max_n == self.max_n,
            self.step().1 is None <==> self.remaining().len() == 0,
            self.step().1 is None ==> self.step().0.remaining().len() == 0,
            self.step().1 is Some ==> self.step().1 == Some(self.remaining()[0])
                && self.step().0.remaining() == self.remaining().drop_first(),
    {
        let (next, gram) = self.step();
        let min_n = self.min_n;
        let max_n = self.max_n;
        if self.width >= self.min_n {
            assert(next.remaining() == self.remaining().drop_first());
        } else if self.moved().rest() < self.min_n {
            lemma_short_rest_is_empty(self.text, min_n, max_n, self.start + 1);
            lemma_short_rest_is_empty(self.text, min_n, max_n, self.moved().start + 1);
        } else {
            let at = self.moved();
            assert(self.remaining() == ngrams_at(self.text, min_n, max_n, at.start)
                + ngrams_from(self.text, min_n, max_n, at.start + 1));
            assert(next.remaining() == self.remaining().drop_first());
        }
    }

    /// No more n-grams remain than `max_n - min_n + 1` for each character from
    /// the anchor on.
    pub proof fn lemma_remaining_bound(self)
        requires
            self.wf(),
        ensures
            self.remaining().len() <= (self.max_n - self.min_n + 1) * self.rest(),
    {
        let per_anchor = self.max_n - self.min_n + 1;
        lemma_count_bound(self.text, self.min_n, self.max_n, self.start + 1);
        if self.start < self.text.len() {
            assert(per_anchor * self.rest() == per_anchor + per_anchor * (self.rest() - 1))
                by (nonlinear_arith);
        } else {
            assert(per_anchor * self.rest() == 0) by (nonlinear_arith)
                requires
                    self.rest() == 0,
            ;
        }
    }
}

/// From anchor `i` on there are at most `max_n - min_n + 1` n-grams for each
/// character that is left.
proof fn lemma_count_bound(text: Seq<char>, min_n: int, max_n: int, i: int)
    requires
        1 <= min_n <= max_n,
        0 <= i,
    ensures
        i <= text.len() ==> ngrams_from(text, min_n, max_n, i).len() <= (max_n - min_n + 1) * (
        text.len() - i),
        i > text.len() ==> ngrams_from(text, min_n, max_n, i).len() == 0,
    decreases text.len() - i,
{
    let per_anchor = max_n - min_n + 1;
    if i < text.len() {
        lemma_count_bound(text, min_n, max_n, i + 1);
        assert(per_anchor * (text.len() - i) == per_anchor + per_anchor * (text.len() - (i + 1)))
            by (nonlinear_arith);
    } else if i == text.len() {
        assert(per_anchor * (text.len() - i) == 0) by (nonlinear_arith)
            requires
                text.len() - i == 0,
        ;
    }
}

/// A generator of the character n-grams of a string.
///
/// It is consumed once, front to back, by calls of [`NGrams::next`]; every
/// item is a view into the string that the generator was made for.
pub struct NGrams<'a> {
    max_n: usize,
    min_n: usize,
    string: &'a str,
    /// The byte offset of every character of `string`.
    char_offsets: Vec<usize>,
    /// The position of the anchor in `char_offsets`.
    anchor: usize,
    ngram_len: usize,
}

impl<'a> View for NGrams<'a> {
    type V = Cursor;

    closed spec fn view(&self) -> Cursor {
        Cursor {
            text: self.string@,
            min_n: self.min_n as int,
            max_n: self.max_n as int,
            start: self.anchor as int,
            width: self.ngram_len as int,
        }
    }
}

impl<'a> NGrams<'a> {
    /// The offsets are those of the characters of the string, the anchor is
    /// one of them or the end, and a candidate length in range fits both the
    /// limit and the rest of the text.
    #[verifier::type_invariant]
    spec fn inv(self) -> bool {
        &&& 1 <= self.min_n <= self.max_n
        &&& self.char_offsets@ == byte_offsets(self.string@)
        &&& self.anchor <= self.char_offsets@.len()
        &&& self.ngram_len >= self.min_n ==> self.anchor + self.ngram_len
            <= self.char_offsets@.len() && self.ngram_len <= self.max_n
    }

    /// Create a new n-gram generator.
    ///
    /// The generator will create the n-grams of `string` with lengths in
    /// *[min_n, max_n]*.
    pub fn new(string: &'a str, min_n: usize, max_n: usize) -> (grams: Self)
        requires
            1 <= min_n <= max_n,
        ensures
            grams@ == Cursor::initial(string@, min_n as int, max_n as int),
            grams@.wf(),
            grams@.remaining() == ngrams(string@, min_n as int, max_n as int),
    {
        // Get the byte offsets of the characters in `string`.
        let char_offsets = char_offsets(string);
        let ngram_len = if max_n <= char_offsets.len() {
            max_n
        } else {
            char_offsets.len()
        };
        proof {
            Cursor::lemma_initial(string@, min_n as int, max_n as int);
        }
        NGrams { min_n, max_n, string, char_offsets, anchor: 0, ngram_len }
    }

    /// The next n-gram, or `None` when all have been produced.
    pub fn next(&mut self) -> (gram: Option<&'a str>)
        ensures
            final(self)@ == old(self)@.step().0,
            final(self)@.wf(),
            match gram {
                Some(part) => Some(part@) == old(self)@.step().1,
                None => old(self)@.step().1 is None,
            },
            match gram {
                Some(part) => old(self)@.remaining().len() > 0 && part@ == old(self)@.remaining()[0]
                    && final(self)@.remaining() == old(self)@.remaining().drop_first(),
                None => old(self)@.remaining().len() == 0 && final(self)@.remaining().len() == 0,
            },
    {
        proof {
            use_type_invariant(&*self);
            old(self)@.lemma_step();
        }
        let total = self.char_offsets.len();
        // If the n-grams for the current suffix are exhausted,
        // move to the next suffix.
        if self.ngram_len < self.min_n {
            // Leave the first character behind, to get the next suffix.
            if self.anchor < total {
                self.anchor += 1;
            }
            // If the suffix is smaller than the minimal n-gram
            // length, the generator is exhausted.

            let rest = total - self.anchor;
            if rest < self.min_n {
                return None;
            }
            // Get the maximum n-gram length for this suffix.

            self.ngram_len = if self.max_n <= rest {
                self.max_n
            } else {
                rest
            };
        }
        let ngram = substring(
            self.string,
            &self.char_offsets,
            self.anchor,
            self.anchor + self.ngram_len,
        );
        self.ngram_len -= 1;
        Some(ngram)
    }

    /// An upper bound on the number of n-grams that are left: the number of
    /// lengths in the range for every character from the anchor on.
    pub fn size_hint(&self) -> (hint: (usize, Option<usize>))
        requires
            (self@.max_n - self@.min_n + 1) * self@.rest() <= usize::MAX,
        ensures
            hint.0 == (self@.max_n - self@.min_n + 1) * self@.rest(),
            hint.1 == Some(hint.0),
            self@.remaining().len() <= hint.0,
    {
        proof {
            use_type_invariant(self);
            self@.lemma_remaining_bound();
        }
        let cap_approx = (self.max_n - self.min_n + 1) * (self.char_offsets.len() - self.anchor);
        (cap_approx, Some(cap_approx))
    }
}

} // verus!
