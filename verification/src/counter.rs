//! Counting of strings.
//!
//! A count mapping assigns to each distinct string the sum of the weights
//! with which it was credited. [`Counter`] keeps such a mapping; the mapping
//! itself, a `Map` from strings to numbers, is what contracts speak of.

use crate::error::Error;
use crate::rank::{ranked, Tally};
use vstd::hash_map::StringHashMap;
use vstd::prelude::*;

verus! {

/// A count mapping.
pub type Counts = Map<Seq<char>, nat>;

/// A string with the weight of one occurrence of it.
pub type Occurrence = (Seq<char>, nat);

/// The count of `key` in `counts`: zero where the mapping has no entry for it.
pub open spec fn count_in(counts: Counts, key: Seq<char>) -> nat {
    if counts.contains_key(key) {
        counts[key]
    } else {
        0
    }
}

/// The mapping after `key` was credited with `weight`.
pub open spec fn credited(counts: Counts, key: Seq<char>, weight: nat) -> Counts {
    counts.insert(key, count_in(counts, key) + weight)
}

/// The mapping after the occurrences `items` were credited one by one.
pub open spec fn accumulated(counts: Counts, items: Seq<Occurrence>) -> Counts
    decreases items.len(),
{
    if items.len() == 0 {
        counts
    } else {
        credited(accumulated(counts, items.drop_last()), items.last().0, items.last().1)
    }
}

/// The sum of the weights of the occurrences of `key` among `items`.
pub open spec fn weight_of(items: Seq<Occurrence>, key: Seq<char>) -> nat
    decreases items.len(),
{
    if items.len() == 0 {
        0
    } else if items.last().0 == key {
        weight_of(items.drop_last(), key) + items.last().1
    } else {
        weight_of(items.drop_last(), key)
    }
}

/// Whether every count of the mapping is a number that the machine can hold.
pub open spec fn fits(counts: Counts) -> bool {
    forall|key: Seq<char>| counts.contains_key(key) ==> #[trigger] counts[key] <= usize::MAX
}

/// Whether `list` names every entry of `counts` exactly once, in any order.
pub open spec fn is_listing(list: Seq<Tally>, counts: Counts) -> bool {
    &&& forall|i: int|
        0 <= i < list.len() ==> counts.contains_key((#[trigger] list[i]).0) && counts[list[i].0]
            == list[i].1
    &&& forall|key: Seq<char>| #[trigger]
        counts.contains_key(key) ==> exists|i: int| 0 <= i < list.len() && (#[trigger] list[i]).0 == key
    &&& forall|i: int, j: int|
        0 <= i < j < list.len() ==> (#[trigger] list[i]).0 != (#[trigger] list[j]).0
}

/// A string has an entry after accumulation if it had one before or occurs
/// among the items, and its count is what it was plus the weights of its
/// occurrences.
pub proof fn lemma_accumulated_counts(counts: Counts, items: Seq<Occurrence>, key: Seq<char>)
    ensures
        count_in(accumulated(counts, items), key) == count_in(counts, key) + weight_of(items, key),
        accumulated(counts, items).contains_key(key) <==> counts.contains_key(key) || exists|i: int|
            0 <= i < items.len() && (#[trigger] items[i]).0 == key,
    decreases items.len(),
{
    if items.len() > 0 {
        let front = items.drop_last();
        lemma_accumulated_counts(counts, front, key);
        if accumulated(counts, items).contains_key(key) && !counts.contains_key(key) {
            if items.last().0 == key {
                assert(items[items.len() - 1].0 == key);
            } else {
                let i = choose|i: int| 0 <= i < front.len() && (#[trigger] front[i]).0 == key;
                assert(items[i].0 == key);
            }
        }
        if exists|i: int| 0 <= i < items.len() && (#[trigger] items[i]).0 == key {
            let i = choose|i: int| 0 <= i < items.len() && (#[trigger] items[i]).0 == key;
            if i < front.len() {
                assert(front[i].0 == key);
            }
        }
    }
}

/// Where every count is at least one and every occurrence weighs at least
/// one, every count after accumulation is at least one.
pub proof fn lemma_counts_stay_positive(counts: Counts, items: Seq<Occurrence>)
    requires
        forall|key: Seq<char>| counts.contains_key(key) ==> #[trigger] counts[key] >= 1,
        forall|i: int| 0 <= i < items.len() ==> (#[trigger] items[i]).1 >= 1,
    ensures
        forall|key: Seq<char>|
            accumulated(counts, items).contains_key(key) ==> #[trigger] accumulated(
                counts,
                items,
            )[key] >= 1,
    decreases items.len(),
{
    if items.len() > 0 {
        let front = items.drop_last();
        assert forall|i: int| 0 <= i < front.len() implies (#[trigger] front[i]).1 >= 1 by {
            assert(front[i] == items[i]);
        }
        lemma_counts_stay_positive(counts, front);
        let before = accumulated(counts, front);
        let after = accumulated(counts, items);
        assert forall|key: Seq<char>| after.contains_key(key) implies #[trigger] after[key]
            >= 1 by {
            if key == items.last().0 {
                assert(items[items.len() - 1].1 >= 1);
            } else {
                assert(before.contains_key(key) && before[key] >= 1);
            }
        }
    }
}

/// Crediting one run of occurrences after another is crediting both in one.
pub proof fn lemma_accumulated_concat(counts: Counts, a: Seq<Occurrence>, b: Seq<Occurrence>)
    ensures
        accumulated(counts, a + b) == accumulated(accumulated(counts, a), b),
    decreases b.len(),
{
    if b.len() == 0 {
        assert(a + b == a);
    } else {
        lemma_accumulated_concat(counts, a, b.drop_last());
        assert((a + b).drop_last() == a + b.drop_last());
    }
}

/// Counts only grow: where the counts fit after a run of occurrences, they fit
/// after every part of it that comes first.
pub proof fn lemma_fits_prefix(counts: Counts, items: Seq<Occurrence>, n: int)
    requires
        0 <= n <= items.len(),
        fits(accumulated(counts, items)),
    ensures
        fits(accumulated(counts, items.take(n))),
    decreases items.len() - n,
{
    if n < items.len() {
        lemma_fits_prefix(counts, items, n + 1);
        let longer = items.take(n + 1);
        assert(longer.drop_last() == items.take(n));
        let before = accumulated(counts, items.take(n));
        let after = accumulated(counts, longer);
        assert forall|key: Seq<char>| before.contains_key(key) implies #[trigger] before[key]
            <= usize::MAX by {
            assert(after.contains_key(key));
            assert(after[key] <= usize::MAX);
        }
    } else {
        assert(items.take(n) == items);
    }
}

/// The ranked list of the entries of `counts` that the filter lets through.
pub open spec fn ranking(counts: Counts, filter: Option<usize>) -> Seq<Tally> {
    ranked(choose|list: Seq<Tally>| is_listing(list, counts), filter)
}

/// Two listings of one mapping hold the same tallies.
proof fn lemma_listings_agree(a: Seq<Tally>, b: Seq<Tally>, counts: Counts)
    requires
        is_listing(a, counts),
        is_listing(b, counts),
    ensures
        a.to_multiset() == b.to_multiset(),
{
    broadcast use vstd::seq_lib::group_to_multiset_ensures;

    assert(a.no_duplicates());
    assert(b.no_duplicates());
    a.lemma_multiset_has_no_duplicates();
    b.lemma_multiset_has_no_duplicates();
    assert forall|t: Tally| a.to_multiset().count(t) == b.to_multiset().count(t) by {
        if a.contains(t) {
            let i = choose|i: int| 0 <= i < a.len() && a[i] == t;
            assert(counts.contains_key(a[i].0));
            let j = choose|j: int| 0 <= j < b.len() && (#[trigger] b[j]).0 == t.0;
            assert(b[j] == t);
        }
        if b.contains(t) {
            let j = choose|j: int| 0 <= j < b.len() && b[j] == t;
            assert(counts.contains_key(b[j].0));
            let i = choose|i: int| 0 <= i < a.len() && (#[trigger] a[i]).0 == t.0;
            assert(a[i] == t);
        }
    }
    assert(a.to_multiset() =~= b.to_multiset());
}

/// The ranked list depends on the mapping alone: whatever the order in which
/// its entries are listed, ranking them gives the same list.
pub proof fn lemma_ranking_ignores_listing(list: Seq<Tally>, counts: Counts, filter: Option<usize>)
    requires
        is_listing(list, counts),
    ensures
        ranked(list, filter) == ranking(counts, filter),
{
    let chosen = choose|list: Seq<Tally>| is_listing(list, counts);
    lemma_listings_agree(list, chosen, counts);
    crate::rank::lemma_ranked_ignores_order(list, chosen, filter);
}

/// A frequency counter: a count mapping that grows as strings are credited.
pub struct Counter {
    /// For every string its position in `tallies`.
    index: StringHashMap<usize>,
    /// The strings in the order of their first occurrence, each with its
    /// count.
    tallies: Vec<(String, usize)>,
}

impl View for Counter {
    type V = Counts;

    closed spec fn view(&self) -> Counts {
        Map::new(
            |key: Seq<char>| self.index@.contains_key(key),
            |key: Seq<char>| self.tallies@[self.index@[key] as int].1 as nat,
        )
    }
}

impl Counter {
    /// The index and the tallies describe each other: every tally stands at
    /// the position that the index gives for its string, and the index knows
    /// no other strings.
    #[verifier::type_invariant]
    spec fn inv(self) -> bool {
        &&& forall|i: int|
            0 <= i < self.tallies@.len() ==> self.index@.contains_key(
                (#[trigger] self.tallies@[i]).0@,
            ) && self.index@[self.tallies@[i].0@] == i
        &&& forall|key: Seq<char>| #[trigger]
            self.index@.contains_key(key) ==> self.index@[key] < self.tallies@.len()
                && self.tallies@[self.index@[key] as int].0@ == key
    }

    /// The mapping of a counter holds machine numbers only.
    pub proof fn lemma_counts_fit(&self)
        ensures
            fits(self@),
    {
    }

    /// A counter that has counted nothing.
    pub fn new() -> (counter: Self)
        ensures
            counter@ == Counts::empty(),
    {
        let counter = Counter { index: StringHashMap::new(), tallies: Vec::new() };
        assert(counter@ =~= Counts::empty());
        counter
    }

    /// The count of `key`, if it has one.
    pub fn get(&self, key: &str) -> (count: Option<usize>)
        ensures
            match count {
                Some(n) => self@.contains_key(key@) && self@[key@] == n,
                None => !self@.contains_key(key@),
            },
    {
        proof {
            use_type_invariant(self);
        }
        match self.index.get(key) {
            Some(at) => Some(self.tallies[*at].1),
            None => None,
        }
    }

    /// Credits `key` with `weight`: a string that has no count yet gets
    /// `weight` as its count, any other has its count raised by `weight`. Where
    /// the new count would be too large for the machine, nothing changes and
    /// the error is `CountOverflow`.
    pub fn add(&mut self, key: &str, weight: usize) -> (done: Result<(), Error>)
        ensures
            match done {
                Ok(_) => count_in(old(self)@, key@) + weight <= usize::MAX && final(self)@
                    == credited(old(self)@, key@, weight as nat),
                Err(e) => e == Error::CountOverflow && count_in(old(self)@, key@) + weight
                    > usize::MAX && final(self)@ == old(self)@,
            },
    {
        proof {
            use_type_invariant(&*self);
        }
        let place = match self.index.get(key) {
            Some(at) => Some(*at),
            None => None,
        };
        let count = match place {
            Some(at) => match self.tallies[at].1.checked_add(weight) {
                Some(sum) => sum,
                None => {
                    return Err(Error::CountOverflow);
                },
            },
            None => weight,
        };
        // The index and the tallies describe each other only when both are
        // up to date: take the counter apart, change them, and put it back.
        let mut parts = Counter::new();
        std::mem::swap(self, &mut parts);
        let Counter { mut index, mut tallies } = parts;
        match place {
            Some(at) => {
                tallies[at].1 = count;
            },
            None => {
                index.insert(key.to_owned(), tallies.len());
                tallies.push((key.to_owned(), count));
            },
        }
        *self = Counter { index, tallies };
        assert(self@ =~= credited(old(self)@, key@, weight as nat));
        Ok(())
    }

    /// The entries of the mapping, each string with its count.
    pub fn into_tallies(self) -> (list: Vec<(String, usize)>)
        ensures
            is_listing(list.deep_view(), self@),
    {
        proof {
            use_type_invariant(&self);
        }
        let list = self.tallies;
        proof {
            let view = list.deep_view();
            assert forall|key: Seq<char>| #[trigger] self@.contains_key(key) implies exists|i: int|
                0 <= i < view.len() && (#[trigger] view[i]).0 == key by {
                assert(view[self.index@[key] as int].0 == key);
            }
        }
        list
    }
}

} // verus!
