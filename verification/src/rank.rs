//! Ranking of counted strings.
//!
//! A tally is a string with its count. A ranked list holds tallies by
//! descending count; tallies with the same count stand in ascending
//! lexicographic order of their strings. This order is total, so the ranked
//! list of a collection of tallies does not depend on the order in which the
//! collection was handed over.

use vstd::multiset::Multiset;
use vstd::prelude::*;
use vstd::relations::{sorted_by, total_ordering};
use vstd::seq_lib::{lemma_multiset_commutative, lemma_sorted_unique, to_multiset_build};
use vstd::std_specs::iter::IteratorSpec;

verus! {

/// A string with its count, as contracts see it.
pub type Tally = (Seq<char>, usize);

/// Lexicographic order of texts by the scalar values of their characters: `a`
/// is `b` or comes before it.
pub open spec fn text_le(a: Seq<char>, b: Seq<char>) -> bool
    decreases a.len(),
{
    if a.len() == 0 {
        true
    } else if b.len() == 0 {
        false
    } else if a[0] != b[0] {
        a[0] < b[0]
    } else {
        text_le(a.drop_first(), b.drop_first())
    }
}

/// Rank order: `a` is `b` or stands before it in a ranked list. The greater
/// count comes first; with equal counts the lesser string.
pub open spec fn ranks_before(a: Tally, b: Tally) -> bool {
    a.1 > b.1 || (a.1 == b.1 && text_le(a.0, b.0))
}

/// Rank order as a relation.
pub open spec fn rank_order() -> spec_fn(Tally, Tally) -> bool {
    |a: Tally, b: Tally| ranks_before(a, b)
}

/// The tallies with a count of at least `min_count`.
pub open spec fn at_least(min_count: usize) -> spec_fn(Tally) -> bool {
    |t: Tally| t.1 >= min_count
}

/// Whether `list` is in rank order.
pub open spec fn is_ranked(list: Seq<Tally>) -> bool {
    sorted_by(list, rank_order())
}

/// The tallies that a filter lets through, in their order: with a minimum
/// count those that reach it, without one all.
pub open spec fn kept(items: Seq<Tally>, filter: Option<usize>) -> Seq<Tally> {
    match filter {
        Some(min_count) => items.filter(at_least(min_count)),
        None => items,
    }
}

/// The ranked list of the tallies that the filter lets through.
pub open spec fn ranked(items: Seq<Tally>, filter: Option<usize>) -> Seq<Tally> {
    kept(items, filter).sort_by(rank_order())
}

/// Every text is lexicographically before or equal to itself.
pub proof fn lemma_text_le_reflexive(a: Seq<char>)
    ensures
        text_le(a, a),
    decreases a.len(),
{
    if a.len() > 0 {
        lemma_text_le_reflexive(a.drop_first());
    }
}

/// Two texts that each come before or equal the other are the same text.
pub proof fn lemma_text_le_antisymmetric(a: Seq<char>, b: Seq<char>)
    requires
        text_le(a, b),
        text_le(b, a),
    ensures
        a == b,
    decreases a.len(),
{
    if a.len() > 0 {
        lemma_text_le_antisymmetric(a.drop_first(), b.drop_first());
        assert(a == seq![a[0]] + a.drop_first());
        assert(b == seq![b[0]] + b.drop_first());
    } else {
        assert(a == b);
    }
}

/// Lexicographic order is transitive.
pub proof fn lemma_text_le_transitive(a: Seq<char>, b: Seq<char>, c: Seq<char>)
    requires
        text_le(a, b),
        text_le(b, c),
    ensures
        text_le(a, c),
    decreases a.len(),
{
    if a.len() > 0 && a[0] == b[0] && b[0] == c[0] {
        lemma_text_le_transitive(a.drop_first(), b.drop_first(), c.drop_first());
    }
}

/// Of two texts one comes before or equals the other.
pub proof fn lemma_text_le_total(a: Seq<char>, b: Seq<char>)
    ensures
        text_le(a, b) || text_le(b, a),
    decreases a.len(),
{
    if a.len() > 0 && b.len() > 0 && a[0] == b[0] {
        lemma_text_le_total(a.drop_first(), b.drop_first());
    }
}

/// Rank order is a total order: no two distinct tallies are tied.
pub proof fn lemma_rank_order_total()
    ensures
        total_ordering(rank_order()),
{
    let r = rank_order();
    assert forall|x: Tally| #[trigger] r(x, x) by {
        lemma_text_le_reflexive(x.0);
    }
    assert forall|x: Tally, y: Tally| #[trigger] r(x, y) && #[trigger] r(y, x) implies x == y by {
        lemma_text_le_antisymmetric(x.0, y.0);
    }
    assert forall|x: Tally, y: Tally, z: Tally| #[trigger] r(x, y) && #[trigger] r(y, z) implies r(
        x,
        z,
    ) by {
        if x.1 == y.1 && y.1 == z.1 {
            lemma_text_le_transitive(x.0, y.0, z.0);
        }
    }
    assert forall|x: Tally, y: Tally| #[trigger] r(x, y) || #[trigger] r(y, x) by {
        lemma_text_le_total(x.0, y.0);
    }
}

/// The ranked list holds exactly the tallies that the filter lets through,
/// each as often as it was handed over, and it is in rank order. It is the only
/// such list.
pub proof fn lemma_ranked_is_the_ranked_list(
    items: Seq<Tally>,
    filter: Option<usize>,
    list: Seq<Tally>,
)
    ensures
        is_ranked(ranked(items, filter)),
        ranked(items, filter).to_multiset() == kept(items, filter).to_multiset(),
        is_ranked(list) && list.to_multiset() == kept(items, filter).to_multiset() ==> list
            == ranked(items, filter),
{
    lemma_rank_order_total();
    kept(items, filter).lemma_sort_by_ensures(rank_order());
    if is_ranked(list) && list.to_multiset() == kept(items, filter).to_multiset() {
        lemma_sorted_unique(list, ranked(items, filter), rank_order());
    }
}

/// Filtering a sequence filters its multiset.
proof fn lemma_filter_to_multiset(s: Seq<Tally>, keep: spec_fn(Tally) -> bool)
    ensures
        s.filter(keep).to_multiset() == s.to_multiset().filter(keep),
    decreases s.len(),
{
    broadcast use vstd::multiset::group_multiset_axioms;
    broadcast use vstd::seq_lib::group_to_multiset_ensures;

    reveal(Seq::filter);
    if s.len() == 0 {
        assert(s.filter(keep).to_multiset() =~= s.to_multiset().filter(keep));
    } else {
        let front = s.drop_last();
        lemma_filter_to_multiset(front, keep);
        assert(s == front.push(s.last()));
        assert(s.to_multiset() =~= front.to_multiset().insert(s.last()));
        assert(s.filter(keep).to_multiset() =~= s.to_multiset().filter(keep));
    }
}

/// What is left of a sorted sequence after filtering is sorted, and came from
/// the sequence.
proof fn lemma_filter_sorted(s: Seq<Tally>, keep: spec_fn(Tally) -> bool)
    requires
        is_ranked(s),
    ensures
        is_ranked(s.filter(keep)),
        forall|i: int| 0 <= i < s.filter(keep).len() ==> s.contains(#[trigger] s.filter(keep)[i]),
    decreases s.len(),
{
    reveal(Seq::filter);
    if s.len() > 0 {
        let front = s.drop_last();
        lemma_filter_sorted(front, keep);
        let out = s.filter(keep);
        assert forall|i: int| 0 <= i < out.len() implies s.contains(#[trigger] out[i]) by {
            if i < front.filter(keep).len() {
                assert(front.contains(front.filter(keep)[i]));
                let k = choose|k: int| 0 <= k < front.len() && front[k] == front.filter(keep)[i];
                assert(s[k] == out[i]);
            } else {
                assert(s[s.len() - 1] == out[i]);
            }
        }
        assert forall|i: int, j: int| 0 <= i < j < out.len() implies #[trigger] rank_order()(
            out[i],
            out[j],
        ) by {
            if j < front.filter(keep).len() {
                assert(rank_order()(front.filter(keep)[i], front.filter(keep)[j]));
            } else {
                assert(front.contains(front.filter(keep)[i]));
                let k = choose|k: int| 0 <= k < front.len() && front[k] == front.filter(keep)[i];
                assert(rank_order()(s[k], s[s.len() - 1]));
            }
        }
    }
}

/// The ranked list does not depend on the order in which the tallies are
/// handed over: two collections with the same tallies have the same ranked
/// list.
pub proof fn lemma_ranked_ignores_order(a: Seq<Tally>, b: Seq<Tally>, filter: Option<usize>)
    requires
        a.to_multiset() == b.to_multiset(),
    ensures
        ranked(a, filter) == ranked(b, filter),
{
    if let Some(min_count) = filter {
        lemma_filter_to_multiset(a, at_least(min_count));
        lemma_filter_to_multiset(b, at_least(min_count));
    }
    lemma_ranked_is_the_ranked_list(a, filter, ranked(b, filter));
    lemma_ranked_is_the_ranked_list(b, filter, ranked(b, filter));
}

/// Ranking with a minimum count gives the ranked list of all tallies with
/// those below the minimum removed, the others in their order.
pub proof fn lemma_filter_commutes_with_ranking(items: Seq<Tally>, min_count: usize)
    ensures
        ranked(items, Some(min_count)) == ranked(items, None).filter(at_least(min_count)),
{
    let keep = at_least(min_count);
    let all = ranked(items, None);
    lemma_ranked_is_the_ranked_list(items, None, all);
    lemma_filter_sorted(all, keep);
    lemma_filter_to_multiset(all, keep);
    lemma_filter_to_multiset(items, keep);
    lemma_ranked_is_the_ranked_list(items, Some(min_count), all.filter(keep));
}

/// Whether `a` is `b` or comes before it in lexicographic order.
pub fn text_precedes(a: &str, b: &str) -> (le: bool)
    ensures
        le == text_le(a@, b@),
{
    let mut xs = a.chars();
    let mut ys = b.chars();
    loop
        invariant
            text_le(a@, b@) == text_le(xs.remaining(), ys.remaining()),
            xs.obeys_prophetic_iter_laws(),
            ys.obeys_prophetic_iter_laws(),
            xs.decrease() is Some,
        decreases xs.decrease()->0,
    {
        match xs.next() {
            None => {
                return true;
            },
            Some(x) => match ys.next() {
                None => {
                    return false;
                },
                Some(y) => {
                    if x != y {
                        return x < y;
                    }
                },
            },
        }
    }
}

/// Whether tally `a` is tally `b` or stands before it in rank order.
pub fn precedes(a: &(String, usize), b: &(String, usize)) -> (before: bool)
    ensures
        before == ranks_before(a.deep_view(), b.deep_view()),
{
    if a.1 != b.1 {
        a.1 > b.1
    } else {
        text_precedes(a.0.as_str(), b.0.as_str())
    }
}

/// The tallies of `items` with a count of at least `min_count`, in their
/// order.
fn retain_frequent(items: Vec<(String, usize)>, min_count: usize) -> (frequent: Vec<
    (String, usize),
>)
    ensures
        frequent.deep_view() == items.deep_view().filter(at_least(min_count)),
{
    let ghost source = items@;
    let ghost all = items.deep_view();
    let ghost keep = at_least(min_count);
    let mut frequent: Vec<(String, usize)> = Vec::new();
    proof {
        reveal(Seq::filter);
        assert(all.take(0).filter(keep) == frequent.deep_view());
    }
    for item in rest: items
        invariant
            keep == at_least(min_count),
            rest.seq() == source,
            all.len() == source.len(),
            forall|i: int| 0 <= i < source.len() ==> all[i] == (#[trigger] source[i]).deep_view(),
            frequent.deep_view() == all.take(rest.index()).filter(keep),
    {
        let ghost before = frequent.deep_view();
        proof {
            reveal(Seq::filter);
            assert(all.take(rest.index() + 1).drop_last() == all.take(rest.index()));
        }
        if item.1 >= min_count {
            frequent.push(item);
            assert(frequent.deep_view() == before.push(item.deep_view()));
        }
    }
    proof {
        assert(all.take(all.len() as int) == all);
    }
    frequent
}

/// The tallies of two ranked lists in one ranked list.
fn merge(left: Vec<(String, usize)>, right: Vec<(String, usize)>) -> (merged: Vec<
    (String, usize),
>)
    requires
        is_ranked(left.deep_view()),
        is_ranked(right.deep_view()),
    ensures
        is_ranked(merged.deep_view()),
        merged.deep_view().to_multiset() == left.deep_view().to_multiset().add(
            right.deep_view().to_multiset(),
        ),
{
    broadcast use vstd::multiset::group_multiset_axioms;
    broadcast use vstd::seq_lib::group_to_multiset_ensures;

    let ghost total = left.deep_view().to_multiset().add(right.deep_view().to_multiset());
    let mut left = left;
    let mut right = right;
    // The last tallies of the merged list, the very last one first.
    let mut tail: Vec<(String, usize)> = Vec::new();
    proof {
        lemma_rank_order_total();
        assert(tail.deep_view() == Seq::<Tally>::empty());
    }
    while left.len() > 0 && right.len() > 0
        invariant
            total_ordering(rank_order()),
            is_ranked(left.deep_view()),
            is_ranked(right.deep_view()),
            is_ranked(tail.deep_view().reverse()),
            forall|i: int, j: int|
                0 <= i < left.len() && 0 <= j < tail.len() ==> ranks_before(
                    #[trigger] left.deep_view()[i],
                    #[trigger] tail.deep_view()[j],
                ),
            forall|i: int, j: int|
                0 <= i < right.len() && 0 <= j < tail.len() ==> ranks_before(
                    #[trigger] right.deep_view()[i],
                    #[trigger] tail.deep_view()[j],
                ),
            left.deep_view().to_multiset().add(right.deep_view().to_multiset()).add(
                tail.deep_view().to_multiset(),
            ) == total,
        decreases left.len() + right.len(),
    {
        let ghost l = left.deep_view();
        let ghost r = right.deep_view();
        let ghost t = tail.deep_view();
        let right_is_last = precedes(&left[left.len() - 1], &right[right.len() - 1]);
        let last = if right_is_last {
            right.pop().unwrap()
        } else {
            left.pop().unwrap()
        };
        tail.push(last);
        proof {
            let e = last.deep_view();
            assert(tail.deep_view() == t.push(e));
            assert(rank_order()(l.last(), l.last()) && rank_order()(r.last(), r.last()));
            assert(rank_order()(l.last(), r.last()) || rank_order()(r.last(), l.last()));
            if right_is_last {
                assert(right.deep_view() == r.drop_last());
                assert(r == r.drop_last().push(e));
                assert forall|i: int| 0 <= i < l.len() implies ranks_before(l[i], e) by {
                    assert(rank_order()(l[i], l.last()));
                    assert(rank_order()(l.last(), e));
                }
                assert forall|i: int| 0 <= i < r.len() implies ranks_before(r[i], e) by {
                    assert(rank_order()(r[i], r.last()));
                }
            } else {
                assert(left.deep_view() == l.drop_last());
                assert(l == l.drop_last().push(e));
                assert forall|i: int| 0 <= i < r.len() implies ranks_before(r[i], e) by {
                    assert(rank_order()(r[i], r.last()));
                    assert(rank_order()(r.last(), e));
                }
                assert forall|i: int| 0 <= i < l.len() implies ranks_before(l[i], e) by {
                    assert(rank_order()(l[i], l.last()));
                }
            }
            lemma_push_smaller_keeps_reverse_ranked(t, e);
            to_multiset_build(t, e);
            if right_is_last {
                to_multiset_build(r.drop_last(), e);
            } else {
                to_multiset_build(l.drop_last(), e);
            }
            assert(left.deep_view().to_multiset().add(right.deep_view().to_multiset()).add(
                tail.deep_view().to_multiset(),
            ) =~= l.to_multiset().add(r.to_multiset()).add(t.to_multiset()));
        }
    }
    let ghost l = left.deep_view();
    let ghost r = right.deep_view();
    let mut merged = if left.len() > 0 {
        left
    } else {
        right
    };
    proof {
        assert(l.len() == 0 ==> l.to_multiset() =~= Multiset::<Tally>::empty());
        assert(r.len() == 0 ==> r.to_multiset() =~= Multiset::<Tally>::empty());
        assert(merged.deep_view().to_multiset() =~= l.to_multiset().add(r.to_multiset()));
    }
    while tail.len() > 0
        invariant
            total_ordering(rank_order()),
            is_ranked(merged.deep_view()),
            is_ranked(tail.deep_view().reverse()),
            forall|i: int, j: int|
                0 <= i < merged.len() && 0 <= j < tail.len() ==> ranks_before(
                    #[trigger] merged.deep_view()[i],
                    #[trigger] tail.deep_view()[j],
                ),
            merged.deep_view().to_multiset().add(tail.deep_view().to_multiset()) == total,
        decreases tail.len(),
    {
        let ghost m = merged.deep_view();
        let ghost t = tail.deep_view();
        let next = tail.pop().unwrap();
        merged.push(next);
        proof {
            let e = next.deep_view();
            assert(tail.deep_view() == t.drop_last());
            assert(t == t.drop_last().push(e));
            assert(merged.deep_view() == m.push(e));
            lemma_drop_last_keeps_reverse_ranked(t);
            assert forall|i: int, j: int| 0 <= i < j < m.push(e).len() implies #[trigger] rank_order()(
                m.push(e)[i],
                m.push(e)[j],
            ) by {
                if j < m.len() {
                    assert(rank_order()(m[i], m[j]));
                } else {
                    assert(ranks_before(m[i], t[t.len() - 1]));
                }
            }
            to_multiset_build(t.drop_last(), e);
            to_multiset_build(m, e);
            assert(merged.deep_view().to_multiset().add(tail.deep_view().to_multiset()) =~= m.to_multiset().add(
                t.to_multiset(),
            ));
        }
    }
    proof {
        assert(tail.deep_view().to_multiset() =~= Multiset::<Tally>::empty());
    }
    merged
}

/// A list that is ranked back to front stays so when a tally that stands
/// before all of its tallies is pushed.
proof fn lemma_push_smaller_keeps_reverse_ranked(t: Seq<Tally>, e: Tally)
    requires
        is_ranked(t.reverse()),
        forall|j: int| 0 <= j < t.len() ==> ranks_before(e, #[trigger] t[j]),
    ensures
        is_ranked(t.push(e).reverse()),
{
    let before = t.reverse();
    let after = t.push(e).reverse();
    assert forall|i: int, j: int| 0 <= i < j < after.len() implies #[trigger] rank_order()(
        after[i],
        after[j],
    ) by {
        if i > 0 {
            assert(rank_order()(before[i - 1], before[j - 1]));
        }
    }
}

/// A list that is ranked back to front stays so without its last tally, which
/// stands before all others.
proof fn lemma_drop_last_keeps_reverse_ranked(t: Seq<Tally>)
    requires
        t.len() > 0,
        is_ranked(t.reverse()),
    ensures
        is_ranked(t.drop_last().reverse()),
        forall|j: int| 0 <= j < t.len() - 1 ==> ranks_before(t.last(), #[trigger] t[j]),
{
    let before = t.reverse();
    let after = t.drop_last().reverse();
    assert forall|i: int, j: int| 0 <= i < j < after.len() implies #[trigger] rank_order()(
        after[i],
        after[j],
    ) by {
        assert(rank_order()(before[i + 1], before[j + 1]));
    }
    assert forall|j: int| 0 <= j < t.len() - 1 implies ranks_before(t.last(), #[trigger] t[j]) by {
        assert(rank_order()(before[0], before[t.len() - 1 - j]));
    }
}

/// The tallies of `items` as a ranked list.
fn merge_sort(items: Vec<(String, usize)>) -> (sorted: Vec<(String, usize)>)
    ensures
        is_ranked(sorted.deep_view()),
        sorted.deep_view().to_multiset() == items.deep_view().to_multiset(),
    decreases items.len(),
{
    if items.len() <= 1 {
        return items;
    }
    let ghost all = items.deep_view();
    let mut left = items;
    let right = left.split_off(left.len() / 2);
    proof {
        assert(all == left.deep_view() + right.deep_view());
        lemma_multiset_commutative(left.deep_view(), right.deep_view());
    }
    let left = merge_sort(left);
    let right = merge_sort(right);
    merge(left, right)
}

/// The ranked list of `items`: by descending count, and by ascending string
/// where counts are equal. With a minimum count as `filter`, the tallies
/// below it are dropped first.
pub fn counted_into_sorted(items: Vec<(String, usize)>, filter: Option<usize>) -> (sorted: Vec<
    (String, usize),
>)
    ensures
        sorted.deep_view() == ranked(items.deep_view(), filter),
        is_ranked(sorted.deep_view()),
        sorted.deep_view().to_multiset() == kept(items.deep_view(), filter).to_multiset(),
{
    let ghost all = items.deep_view();
    let items = if let Some(min_freq) = filter {
        retain_frequent(items, min_freq)
    } else {
        items
    };
    let sorted = merge_sort(items);
    proof {
        lemma_ranked_is_the_ranked_list(all, filter, sorted.deep_view());
    }
    sorted
}

} // verus!
