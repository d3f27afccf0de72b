//! From counted tokens to ranked lists of tokens and of their n-grams.
//!
//! The tokens of a corpus are counted line by line. The counts are ranked, and
//! where n-grams are asked for, every token is expanded into its n-grams, each
//! credited with the count of the token, and those counts are ranked too.

use crate::counter::{
    accumulated, fits, is_listing, lemma_fits_prefix, lemma_ranking_ignores_listing, ranking, Counter,
    Counts, Occurrence,
};
use crate::error::Error;
use crate::ngrams::{ngrams, NGrams};
use crate::rank::{counted_into_sorted, ranked, Tally};
use crate::words::{split_words, words};
use vstd::prelude::*;
use vstd::string::StringExecFns;

verus! {

/// What a run is asked to do.
#[derive(Debug, Clone, Copy, PartialEq, Eq)]
pub struct Settings {
    /// The least count with which a token is kept.
    pub token_min: usize,
    /// The least count with which an n-gram is kept.
    pub ngram_min: usize,
    /// The least length of an n-gram, in characters.
    pub min_n: usize,
    /// The greatest length of an n-gram, in characters.
    pub max_n: usize,
    /// Whether tokens below `token_min` are dropped before they are expanded
    /// into n-grams.
    pub filter_first: bool,
    /// Whether a token is put between `<` and `>` before it is expanded.
    pub bracket: bool,
}

impl Settings {
    /// Whether the lengths form a range of n-gram lengths: at least one, and
    /// the minimum not above the maximum.
    pub open spec fn valid(self) -> bool {
        1 <= self.min_n <= self.max_n
    }
}

/// Settings with a range of n-gram lengths that was found valid.
pub struct Config {
    settings: Settings,
}

impl View for Config {
    type V = Settings;

    closed spec fn view(&self) -> Settings {
        self.settings
    }
}

impl Config {
    #[verifier::type_invariant]
    spec fn inv(self) -> bool {
        self.settings.valid()
    }

    /// Accepts settings with a valid range of n-gram lengths. The error is
    /// `ZeroLength` where the minimum length is zero, and `EmptyRange` where
    /// the maximum is below a minimum that is not zero.
    pub fn new(settings: Settings) -> (checked: Result<Config, Error>)
        ensures
            match checked {
                Ok(config) => settings.valid() && config@ == settings,
                Err(Error::ZeroLength) => settings.min_n == 0,
                Err(Error::EmptyRange) => 0 < settings.min_n && settings.max_n < settings.min_n,
                Err(Error::CountOverflow) => false,
            },
    {
        if settings.min_n == 0 {
            Err(Error::ZeroLength)
        } else if settings.min_n > settings.max_n {
            Err(Error::EmptyRange)
        } else {
            Ok(Config { settings })
        }
    }

    /// The settings that were accepted.
    pub fn settings(&self) -> (settings: Settings)
        ensures
            settings == self@,
            settings.valid(),
    {
        proof {
            use_type_invariant(self);
        }
        self.settings
    }
}

/// One occurrence of each of `keys`, each with the same weight.
pub open spec fn weighted(keys: Seq<Seq<char>>, weight: nat) -> Seq<Occurrence> {
    Seq::new(keys.len(), |i: int| (keys[i], weight))
}

/// The token as it is expanded: between `<` and `>` where brackets are asked
/// for, else as it is.
pub open spec fn marked(token: Seq<char>, bracket: bool) -> Seq<char> {
    if bracket {
        seq!['<'] + token + seq!['>']
    } else {
        token
    }
}

/// The n-grams of one token, each with the count of the token as its weight.
pub open spec fn expansion_of(token: Tally, config: Settings) -> Seq<Occurrence> {
    weighted(
        ngrams(marked(token.0, config.bracket), config.min_n as int, config.max_n as int),
        token.1 as nat,
    )
}

/// The n-grams of all tokens in the order of the tokens, each with the count
/// of its token as its weight.
pub open spec fn expansion(tokens: Seq<Tally>, config: Settings) -> Seq<Occurrence>
    decreases tokens.len(),
{
    if tokens.len() == 0 {
        Seq::empty()
    } else {
        expansion(tokens.drop_last(), config) + expansion_of(tokens.last(), config)
    }
}

/// Crediting goes on from where it stands: after the first `k` of `items` the
/// next one is credited to what those have given.
proof fn lemma_next_item(before: Counts, items: Seq<Occurrence>, k: int)
    requires
        0 <= k < items.len(),
    ensures
        accumulated(before, items.take(k + 1)) == crate::counter::credited(
            accumulated(before, items.take(k)),
            items[k].0,
            items[k].1,
        ),
{
    assert(items.take(k + 1).drop_last() == items.take(k));
}

/// Where crediting one of `items` would take a count beyond what the machine
/// can hold, the counts after all of them do not fit.
proof fn lemma_overflow_stays(before: Counts, items: Seq<Occurrence>, k: int)
    requires
        0 <= k < items.len(),
        crate::counter::count_in(accumulated(before, items.take(k)), items[k].0) + items[k].1
            > usize::MAX,
    ensures
        !fits(accumulated(before, items)),
{
    if fits(accumulated(before, items)) {
        lemma_fits_prefix(before, items, k + 1);
        lemma_next_item(before, items, k);
        let full = accumulated(before, items.take(k + 1));
        assert(full.contains_key(items[k].0));
        assert(full[items[k].0] <= usize::MAX);
    }
}

/// Counts the tokens of one line: every token of `line` is credited with one.
/// The counter comes back unless a count would be too large for the machine.
#[verifier::loop_isolation(false)]
pub fn count_words(counter: Counter, line: &str) -> (counted: Result<Counter, Error>)
    ensures
        counted is Ok <==> fits(accumulated(counter@, weighted(words(line@), 1))),
        match counted {
            Ok(after) => after@ == accumulated(counter@, weighted(words(line@), 1)),
            Err(e) => e == Error::CountOverflow,
        },
{
    let ghost before = counter@;
    let ghost items = weighted(words(line@), 1);
    let found = split_words(line);
    let mut counter = counter;
    let mut i: usize = 0;
    proof {
        assert(items.take(0) == Seq::<Occurrence>::empty());
    }
    while i < found.len()
        invariant
            found.deep_view() == words(line@),
            items == weighted(words(line@), 1),
            i <= found.len(),
            counter@ == accumulated(before, items.take(i as int)),
        decreases found.len() - i,
    {
        let word: &str = found[i];
        proof {
            assert(found.deep_view()[i as int] == word@);
            assert(items[i as int] == (word@, 1nat));
            lemma_next_item(before, items, i as int);
        }
        match counter.add(word, 1) {
            Ok(_) => {},
            Err(e) => {
                proof {
                    lemma_overflow_stays(before, items, i as int);
                }
                return Err(e);
            },
        }
        i += 1;
    }
    proof {
        assert(items.take(i as int) == items);
        counter.lemma_counts_fit();
    }
    Ok(counter)
}

/// The token as it is expanded: between `<` and `>` where `bracket` is set.
pub fn mark(token: &str, bracket: bool) -> (text: String)
    ensures
        text@ == marked(token@, bracket),
{
    if bracket {
        let mut b_token = String::from_str("<");
        b_token.append(token);
        b_token.append(">");
        proof {
            reveal_strlit("<");
            reveal_strlit(">");
            assert("<"@ == seq!['<']);
            assert(">"@ == seq!['>']);
        }
        b_token
    } else {
        String::from_str(token)
    }
}

/// Counts the n-grams of one token: every n-gram of the token, as often as it
/// occurs there, is credited with the count of the token. The counter comes
/// back unless a count would be too large for the machine.
#[verifier::loop_isolation(false)]
pub fn count_ngrams(counter: Counter, token: &(String, usize), config: &Config) -> (counted: Result<
    Counter,
    Error,
>)
    ensures
        counted is Ok <==> fits(
            accumulated(counter@, expansion_of(token.deep_view(), config@)),
        ),
        match counted {
            Ok(after) => after@ == accumulated(
                counter@,
                expansion_of(token.deep_view(), config@),
            ),
            Err(e) => e == Error::CountOverflow,
        },
{
    let ghost before = counter@;
    let ghost items = expansion_of(token.deep_view(), config@);
    let settings = config.settings();
    let text = mark(token.0.as_str(), settings.bracket);
    let count = token.1;
    let mut grams = NGrams::new(text.as_str(), settings.min_n, settings.max_n);
    let ghost all = grams@.remaining();
    let ghost mut done: int = 0;
    let mut counter = counter;
    proof {
        assert(items.take(0) == Seq::<Occurrence>::empty());
        assert(all.skip(0) == all);
    }
    loop
        invariant
            grams@.wf(),
            items == weighted(all, count as nat),
            0 <= done <= all.len(),
            grams@.remaining() == all.skip(done),
            counter@ == accumulated(before, items.take(done)),
        decreases all.len() - done,
    {
        match grams.next() {
            None => {
                proof {
                    assert(items.take(done) == items);
                    counter.lemma_counts_fit();
                }
                return Ok(counter);
            },
            Some(ngram) => {
                proof {
                    assert(ngram@ == all[done]);
                    assert(items[done] == (ngram@, count as nat));
                    assert(all.skip(done).drop_first() == all.skip(done + 1));
                    lemma_next_item(before, items, done);
                }
                match counter.add(ngram, count) {
                    Ok(_) => {},
                    Err(e) => {
                        proof {
                            lemma_overflow_stays(before, items, done);
                        }
                        return Err(e);
                    },
                }
                proof {
                    done = done + 1;
                }
            },
        }
    }
}

/// Counts the n-grams of all of `tokens`, each credited with the count of the
/// token that it comes from. The error is `CountOverflow` where a count would
/// be too large for the machine.
pub fn expand(tokens: &Vec<(String, usize)>, config: &Config) -> (counted: Result<Counter, Error>)
    ensures
        counted is Ok <==> fits(
            accumulated(Counts::empty(), expansion(tokens.deep_view(), config@)),
        ),
        match counted {
            Ok(counter) => counter@ == accumulated(
                Counts::empty(),
                expansion(tokens.deep_view(), config@),
            ),
            Err(e) => e == Error::CountOverflow,
        },
{
    let ghost all = tokens.deep_view();
    let ghost items = expansion(all, config@);
    let mut counter = Counter::new();
    let mut i: usize = 0;
    proof {
        assert(all.take(0) == Seq::<Tally>::empty());
    }
    while i < tokens.len()
        invariant
            all == tokens.deep_view(),
            items == expansion(all, config@),
            i <= tokens.len(),
            counter@ == accumulated(Counts::empty(), expansion(all.take(i as int), config@)),
        decreases tokens.len() - i,
    {
        let ghost so_far = expansion(all.take(i as int), config@);
        let ghost next = expansion_of(all[i as int], config@);
        proof {
            assert(all.take(i + 1).drop_last() == all.take(i as int));
            assert(expansion(all.take(i + 1), config@) == so_far + next);
            crate::counter::lemma_accumulated_concat(Counts::empty(), so_far, next);
            assert(tokens[i as int].deep_view() == all[i as int]);
        }
        match count_ngrams(counter, &tokens[i], config) {
            Ok(after) => {
                counter = after;
            },
            Err(e) => {
                proof {
                    // what does not fit after these tokens does not fit after all
                    if fits(accumulated(Counts::empty(), items)) {
                        lemma_expansion_prefix(all, config@, i + 1);
                        lemma_fits_prefix(
                            Counts::empty(),
                            items,
                            expansion(all.take(i + 1), config@).len() as int,
                        );
                    }
                }
                return Err(e);
            },
        }
        i += 1;
    }
    proof {
        assert(all.take(i as int) == all);
        counter.lemma_counts_fit();
    }
    Ok(counter)
}

/// The n-grams of the first `n` tokens are the first n-grams of all tokens.
proof fn lemma_expansion_prefix(tokens: Seq<Tally>, config: Settings, n: int)
    requires
        0 <= n <= tokens.len(),
    ensures
        expansion(tokens.take(n), config).len() <= expansion(tokens, config).len(),
        expansion(tokens, config).take(expansion(tokens.take(n), config).len() as int)
            == expansion(tokens.take(n), config),
    decreases tokens.len() - n,
{
    if n < tokens.len() {
        lemma_expansion_prefix(tokens, config, n + 1);
        assert(tokens.take(n + 1).drop_last() == tokens.take(n));
    } else {
        assert(tokens.take(n) == tokens);
    }
}

/// The ranked lists that a run gives out.
pub struct Lists {
    /// The tokens with their counts, for the token sink.
    pub tokens: Vec<(String, usize)>,
    /// The n-grams with their counts, for the n-gram sink, where n-grams were
    /// asked for.
    pub ngrams: Option<Vec<(String, usize)>>,
}

/// The filter on the ranked list of tokens. Without n-grams the minimum token
/// count always applies. With n-grams it applies where tokens are to be
/// filtered first, and not at all otherwise.
pub open spec fn token_filter(config: Settings, with_ngrams: bool) -> Option<usize> {
    if !with_ngrams || config.filter_first {
        Some(config.token_min)
    } else {
        None
    }
}

/// The ranked list of tokens that a run gives out for the token counts
/// `counts`.
pub open spec fn token_list(counts: Counts, config: Settings, with_ngrams: bool) -> Seq<Tally> {
    ranking(counts, token_filter(config, with_ngrams))
}

/// The counts of the n-grams of the tokens that a run gives out.
pub open spec fn ngram_counts(counts: Counts, config: Settings) -> Counts {
    accumulated(Counts::empty(), expansion(token_list(counts, config, true), config))
}

/// The ranked list of n-grams that a run gives out for the token counts
/// `counts`: the n-grams of the listed tokens, without those below the minimum
/// n-gram count.
pub open spec fn ngram_list(counts: Counts, config: Settings) -> Seq<Tally> {
    ranking(ngram_counts(counts, config), Some(config.ngram_min))
}

/// Whether a run may give out `tokens` and `ngrams` for the token counts
/// `counts`, in whatever order the count mappings happen to list their
/// entries: the tokens are the ranked list of some listing of the token
/// counts, and the n-grams that of some listing of the n-gram counts of those
/// tokens.
pub open spec fn is_output(
    counts: Counts,
    config: Settings,
    with_ngrams: bool,
    tokens: Seq<Tally>,
    ngrams: Option<Seq<Tally>>,
) -> bool {
    &&& exists|listing: Seq<Tally>| #[trigger]
        is_listing(listing, counts) && tokens == ranked(
            listing,
            token_filter(config, with_ngrams),
        )
    &&& match ngrams {
        Some(list) => with_ngrams && exists|listing: Seq<Tally>| #[trigger]
            is_listing(listing, accumulated(Counts::empty(), expansion(tokens, config))) && list
                == ranked(listing, Some(config.ngram_min)),
        None => !with_ngrams,
    }
}

/// A run on the same token counts with the same settings gives out the same
/// lists again: the order in which a count mapping lists its entries leaves no
/// trace in them.
pub proof fn lemma_output_is_unique(
    counts: Counts,
    config: Settings,
    with_ngrams: bool,
    tokens: Seq<Tally>,
    ngrams: Option<Seq<Tally>>,
    other_tokens: Seq<Tally>,
    other_ngrams: Option<Seq<Tally>>,
)
    requires
        is_output(counts, config, with_ngrams, tokens, ngrams),
        is_output(counts, config, with_ngrams, other_tokens, other_ngrams),
    ensures
        tokens == other_tokens,
        ngrams == other_ngrams,
        tokens == token_list(counts, config, with_ngrams),
        with_ngrams ==> ngrams == Some(ngram_list(counts, config)),
{
    let filter = token_filter(config, with_ngrams);
    let a = choose|listing: Seq<Tally>| #[trigger]
        is_listing(listing, counts) && tokens == ranked(listing, filter);
    let b = choose|listing: Seq<Tally>| #[trigger]
        is_listing(listing, counts) && other_tokens == ranked(listing, filter);
    lemma_ranking_ignores_listing(a, counts, filter);
    lemma_ranking_ignores_listing(b, counts, filter);
    if with_ngrams {
        let grams = accumulated(Counts::empty(), expansion(tokens, config));
        let least = Some(config.ngram_min);
        let list = ngrams->0;
        let other = other_ngrams->0;
        let c = choose|listing: Seq<Tally>| #[trigger]
            is_listing(listing, grams) && list == ranked(listing, least);
        let d = choose|listing: Seq<Tally>| #[trigger]
            is_listing(listing, grams) && other == ranked(listing, least);
        lemma_ranking_ignores_listing(c, grams, least);
        lemma_ranking_ignores_listing(d, grams, least);
    }
}

/// Turns the token counts of a corpus into the ranked lists of a run.
///
/// Without n-grams, the tokens that reach the minimum token count are ranked.
/// With n-grams, the tokens are ranked, those below the minimum dropped only
/// where tokens are to be filtered first; the n-grams of the listed tokens are
/// counted, each with the count of its token, and those that reach the minimum
/// n-gram count are ranked. The error is `CountOverflow` where the count of an
/// n-gram would be too large for the machine.
pub fn ranked_lists(counter: Counter, config: &Config, with_ngrams: bool) -> (lists: Result<
    Lists,
    Error,
>)
    ensures
        lists is Ok <==> !with_ngrams || fits(ngram_counts(counter@, config@)),
        match lists {
            Ok(ranked) => {
                &&& ranked.tokens.deep_view() == token_list(counter@, config@, with_ngrams)
                &&& match ranked.ngrams {
                    Some(list) => with_ngrams && list.deep_view() == ngram_list(counter@, config@),
                    None => !with_ngrams,
                }
            },
            Err(e) => e == Error::CountOverflow,
        },
{
    let ghost counts = counter@;
    let settings = config.settings();
    let filter = if !with_ngrams || settings.filter_first {
        Some(settings.token_min)
    } else {
        None
    };
    let listing = counter.into_tallies();
    proof {
        lemma_ranking_ignores_listing(listing.deep_view(), counts, filter);
    }
    let tokens = counted_into_sorted(listing, filter);
    if !with_ngrams {
        return Ok(Lists { tokens, ngrams: None });
    }
    match expand(&tokens, config) {
        Ok(ngram_counter) => {
            let ngram_listing = ngram_counter.into_tallies();
            proof {
                lemma_ranking_ignores_listing(
                    ngram_listing.deep_view(),
                    ngram_counter@,
                    Some(settings.ngram_min),
                );
            }
            let ngrams = counted_into_sorted(ngram_listing, Some(settings.ngram_min));
            Ok(Lists { tokens, ngrams: Some(ngrams) })
        },
        Err(e) => Err(e),
    }
}

} // verus!
