//! Token and character n-gram frequency counting for text corpora.
//!
//! The tokens of a corpus, the runs of characters between whitespace, are
//! counted ([`words`], [`counter`]). The counts are put in rank order
//! ([`rank`]): most frequent first, ties in lexicographic order. Where they
//! are asked for, the character n-grams of the tokens ([`ngrams`]) are counted
//! and ranked as well, each credited with the count of the token that it comes
//! from ([`pipeline`]). The ranked lists are written as lines of text
//! ([`record`]).

pub mod counter;
pub mod error;
pub mod ngrams;
pub mod pipeline;
pub mod rank;
pub mod record;
pub mod utf8;
pub mod words;

pub use crate::ngrams::NGrams;
pub use crate::rank::counted_into_sorted;
