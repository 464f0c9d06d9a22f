//! The counting stage as its work items run it: one comparison for every pair
//! of indices, each ending in at most one atomic increment, the work items in
//! any order whatever.

use vstd::prelude::*;

use crate::counting::{count_below, lemma_occurrences_step};
use crate::rank::{as_ranks, ranks};

verus! {

/// One work item: the comparison of the elements at `i` and `j`, and the
/// increment of the count at `i` where the element at `j` is the smaller.
/// A pair that is not on the grid changes nothing.
pub open spec fn compared(source: Seq<i32>, counts: Seq<nat>, i: nat, j: nat) -> Seq<nat> {
    if i < source.len() && j < source.len() && source[i as int] > source[j as int] {
        counts.update(i as int, counts[i as int] + 1)
    } else {
        counts
    }
}

/// The counts after the work items of `items`, one after another, starting
/// from zero everywhere.
pub open spec fn tallied(source: Seq<i32>, items: Seq<(usize, usize)>) -> Seq<nat>
    decreases items.len(),
{
    if items.len() == 0 {
        Seq::new(source.len(), |i: int| 0nat)
    } else {
        compared(
            source,
            tallied(source, items.drop_last()),
            items.last().0 as nat,
            items.last().1 as nat,
        )
    }
}

/// How often the pair of `i` and `j` stands in `items`.
pub open spec fn times(items: Seq<(usize, usize)>, i: nat, j: nat) -> nat
    decreases items.len(),
{
    if items.len() == 0 {
        0
    } else {
        times(items.drop_last(), i, j) + if items.last().0 == i && items.last().1 == j {
            1nat
        } else {
            0nat
        }
    }
}

/// Every pair of two indices under `n` stands in `items` exactly once.
pub open spec fn covers_grid(items: Seq<(usize, usize)>, n: nat) -> bool {
    forall|i: nat, j: nat| i < n && j < n ==> #[trigger] times(items, i, j) == 1
}

/// The increments that the work items of `items` make to the count at `i`
/// for the partners under `n`.
pub open spec fn increments(source: Seq<i32>, items: Seq<(usize, usize)>, i: nat, n: nat) -> nat
    decreases n,
{
    if n == 0 {
        0
    } else {
        increments(source, items, i, (n - 1) as nat) + if source[n - 1] < source[i as int] {
            times(items, i, (n - 1) as nat)
        } else {
            0nat
        }
    }
}

proof fn lemma_increments_step(source: Seq<i32>, items: Seq<(usize, usize)>, i: nat, n: nat)
    requires
        items.len() > 0,
    ensures
        increments(source, items, i, n) == increments(source, items.drop_last(), i, n) + if items.last().0
            == i && items.last().1 < n && source[items.last().1 as int] < source[i as int] {
            1nat
        } else {
            0nat
        },
    decreases n,
{
    if n > 0 {
        lemma_increments_step(source, items, i, (n - 1) as nat);
    }
}

proof fn lemma_increments_none(source: Seq<i32>, items: Seq<(usize, usize)>, i: nat, n: nat)
    requires
        items.len() == 0,
    ensures
        increments(source, items, i, n) == 0,
    decreases n,
{
    if n > 0 {
        lemma_increments_none(source, items, i, (n - 1) as nat);
    }
}

/// Each count is the number of increments that were made to it, and no count
/// exceeds the number of work items.
pub proof fn lemma_tallied(source: Seq<i32>, items: Seq<(usize, usize)>, i: nat)
    requires
        i < source.len(),
    ensures
        tallied(source, items).len() == source.len(),
        tallied(source, items)[i as int] == increments(source, items, i, source.len()),
        tallied(source, items)[i as int] <= items.len(),
    decreases items.len(),
{
    if items.len() == 0 {
        lemma_increments_none(source, items, i, source.len());
    } else {
        lemma_tallied(source, items.drop_last(), i);
        lemma_increments_step(source, items, i, source.len());
    }
}

proof fn lemma_increments_once(source: Seq<i32>, items: Seq<(usize, usize)>, i: nat, n: nat)
    requires
        i < source.len(),
        n <= source.len(),
        covers_grid(items, source.len()),
    ensures
        increments(source, items, i, n) == count_below(source.take(n as int), source[i as int]),
    decreases n,
{
    if n > 0 {
        lemma_increments_once(source, items, i, (n - 1) as nat);
        lemma_occurrences_step(source, n - 1, source[i as int]);
        assert(times(items, i, (n - 1) as nat) == 1);
    }
}

/// In whatever order the work items run: once each pair of the grid has had
/// its one comparison, every count is the rank of its element.
pub proof fn lemma_every_order_counts(source: Seq<i32>, items: Seq<(usize, usize)>)
    requires
        covers_grid(items, source.len()),
    ensures
        tallied(source, items) == ranks(source),
{
    assert forall|i: int| 0 <= i < source.len() implies tallied(source, items)[i] == ranks(
        source,
    )[i] by {
        lemma_tallied(source, items, i as nat);
        lemma_increments_once(source, items, i as nat, source.len());
        assert(source.take(source.len() as int) =~= source);
    }
    if source.len() == 0 {
        lemma_tallied_len(source, items);
    } else {
        lemma_tallied(source, items, 0);
    }
    assert(tallied(source, items) =~= ranks(source));
}

proof fn lemma_tallied_len(source: Seq<i32>, items: Seq<(usize, usize)>)
    ensures
        tallied(source, items).len() == source.len(),
    decreases items.len(),
{
    if items.len() > 0 {
        lemma_tallied_len(source, items.drop_last());
    }
}

/// Runs the counting stage with its work items in the order of `items`, each
/// entry the pair of indices of one comparison. Pairs that are not on the
/// grid are passed over. Where `items` holds each pair of the grid once, the
/// counts are the ranks, whatever the order.
pub fn rank_counts_interleaved(source: &Vec<i32>, items: &Vec<(usize, usize)>) -> (counts: Vec<
    usize,
>)
    ensures
        as_ranks(counts@) == tallied(source@, items@),
        counts@.len() == source@.len(),
        covers_grid(items@, source@.len()) ==> as_ranks(counts@) == ranks(source@),
{
    let n = source.len();
    let mut counts: Vec<usize> = Vec::new();
    let mut i: usize = 0;
    while i < n
        invariant
            i <= n,
            counts@ == Seq::new(i as nat, |k: int| 0usize),
        decreases n - i,
    {
        counts.push(0);
        i = i + 1;
        proof {
            assert(counts@ =~= Seq::new(i as nat, |k: int| 0usize));
        }
    }
    let mut k: usize = 0;
    proof {
        assert(items@.take(0) =~= Seq::<(usize, usize)>::empty());
        assert(as_ranks(counts@) =~= tallied(source@, items@.take(0)));
    }
    while k < items.len()
        invariant
            n == source.len(),
            counts@.len() == n,
            k <= items.len(),
            as_ranks(counts@) == tallied(source@, items@.take(k as int)),
        decreases items.len() - k,
    {
        let a = items[k].0;
        let b = items[k].1;
        proof {
            assert(items@.take(k + 1).drop_last() =~= items@.take(k as int));
            assert(items@.take(k + 1).last() == items@[k as int]);
        }
        if a < n && b < n && source[a] > source[b] {
            proof {
                lemma_tallied(source@, items@.take(k as int), a as nat);
                assert(as_ranks(counts@)[a as int] == counts@[a as int]);
            }
            let bumped = counts[a] + 1;
            counts.set(a, bumped);
        }
        proof {
            assert(as_ranks(counts@) =~= tallied(source@, items@.take(k + 1)));
        }
        k = k + 1;
    }
    proof {
        assert(items@.take(k as int) =~= items@);
        if covers_grid(items@, source@.len()) {
            lemma_every_order_counts(source@, items@);
        }
    }
    counts
}

} // verus!
