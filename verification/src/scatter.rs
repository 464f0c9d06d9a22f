//! The placement stage: every element claims the first empty slot at or after
//! its rank.

use vstd::prelude::*;
use vstd::seq_lib::*;

use crate::counting::{
    count_below, lemma_ascending_position, lemma_count_bounds, lemma_count_ordered,
    lemma_count_permutation, lemma_occurrences_prefix, lemma_occurrences_step, occurrences,
};
use crate::order::{ascending, permutation_of};
use crate::rank::{as_ranks, ranks};

verus! {

/// What an unclaimed slot holds.
pub const SENTINEL: i32 = -1;

/// The first slot at or after `from` that is still empty, or the number of
/// slots where there is none.
pub open spec fn first_empty(slots: Seq<i32>, from: nat) -> nat
    decreases slots.len() - from,
{
    if from >= slots.len() {
        slots.len()
    } else if slots[from as int] == SENTINEL {
        from
    } else {
        first_empty(slots, from + 1)
    }
}

/// One element's claim: `value` goes into the first empty slot at or after
/// `rank`. Where every slot from `rank` on is taken, or `rank` is past the
/// end, nothing changes and the element is lost.
pub open spec fn claim(slots: Seq<i32>, rank: nat, value: i32) -> Seq<i32> {
    let slot = first_empty(slots, rank);
    if slot < slots.len() {
        slots.update(slot as int, value)
    } else {
        slots
    }
}

/// The slots after the first `n` elements of `source` have made their claims,
/// one after another.
pub open spec fn scattered(source: Seq<i32>, counts: Seq<nat>, n: nat) -> Seq<i32>
    decreases n,
{
    if n == 0 {
        Seq::new(source.len(), |p: int| SENTINEL)
    } else {
        claim(scattered(source, counts, (n - 1) as nat), counts[n - 1], source[n - 1])
    }
}

/// The slots after every element of `source` has made its claim.
pub open spec fn scatter(source: Seq<i32>, counts: Seq<nat>) -> Seq<i32> {
    scattered(source, counts, source.len())
}

/// Slot `p` lies among the `width` slots that start at the rank of `v`.
pub open spec fn in_run(source: Seq<i32>, v: i32, width: nat, p: int) -> bool {
    count_below(source, v) <= p < count_below(source, v) + width
}

/// What holds of the slots once the first `n` elements have claimed theirs by
/// their true ranks: a taken slot lies in the run of the value it holds, and of
/// each value as many slots are taken, from its rank on, as the value has
/// occurred.
pub open spec fn settled(slots: Seq<i32>, source: Seq<i32>, n: int) -> bool {
    &&& slots.len() == source.len()
    &&& forall|p: int|
        0 <= p < slots.len() && #[trigger] slots[p] != SENTINEL ==> in_run(
            source,
            slots[p],
            occurrences(source.take(n), slots[p]),
            p,
        )
    &&& forall|v: i32, p: int|
        v != SENTINEL && #[trigger] in_run(source, v, occurrences(source.take(n), v), p)
            ==> slots[p] == v
}

/// `first_empty` finds an empty slot, or the end, and skips only taken slots.
pub proof fn lemma_first_empty(slots: Seq<i32>, from: nat)
    ensures
        from <= slots.len() ==> from <= first_empty(slots, from) <= slots.len(),
        first_empty(slots, from) < slots.len() ==> slots[first_empty(slots, from) as int]
            == SENTINEL,
        forall|p: int| from <= p < first_empty(slots, from) ==> slots[p] != SENTINEL,
    decreases slots.len() - from,
{
    if from < slots.len() && slots[from as int] != SENTINEL {
        lemma_first_empty(slots, from + 1);
    }
}

/// The slot where a search ends is fixed by what it skips and where it stops.
pub proof fn lemma_first_empty_is(slots: Seq<i32>, from: nat, stop: nat)
    requires
        from <= stop <= slots.len(),
        forall|p: int| from <= p < stop ==> slots[p] != SENTINEL,
        stop < slots.len() ==> slots[stop as int] == SENTINEL,
    ensures
        first_empty(slots, from) == stop,
    decreases stop - from,
{
    if from < stop {
        lemma_first_empty_is(slots, from + 1, stop);
    }
}

/// One more claim by a true rank keeps the slots settled.
proof fn lemma_claim_settled(slots: Seq<i32>, source: Seq<i32>, n: int)
    requires
        0 <= n < source.len(),
        settled(slots, source, n),
    ensures
        settled(claim(slots, count_below(source, source[n]), source[n]), source, n + 1),
{
    let v = source[n];
    let base = count_below(source, v);
    let after = claim(slots, base, v);
    assert forall|w: i32|
        occurrences(source.take(n + 1), w) == occurrences(source.take(n), w) + if w == v {
            1nat
        } else {
            0nat
        } by {
        lemma_occurrences_step(source, n, w);
    }
    if v == SENTINEL {
        lemma_first_empty(slots, base);
        assert(after =~= slots);
        assert forall|w: i32, p: int|
            w != SENTINEL && #[trigger] in_run(
                source,
                w,
                occurrences(source.take(n + 1), w),
                p,
            ) implies after[p] == w by {
            assert(in_run(source, w, occurrences(source.take(n), w), p));
        }
    } else {
        let seen = occurrences(source.take(n), v);
        let stop = base + seen;
        lemma_occurrences_prefix(source, n + 1, v);
        lemma_count_bounds(source, v);
        assert(stop < source.len());
        assert forall|p: int| base <= p < stop implies slots[p] != SENTINEL by {
            assert(in_run(source, v, occurrences(source.take(n), v), p));
        }
        if slots[stop as int] != SENTINEL {
            let w = slots[stop as int];
            assert(in_run(source, w, occurrences(source.take(n), w), stop as int));
            lemma_occurrences_prefix(source, n, w);
            if w < v {
                lemma_count_ordered(source, w, v);
            } else if w > v {
                lemma_count_ordered(source, v, w);
            }
            assert(false);
        }
        lemma_first_empty_is(slots, base, stop);
        assert(after == slots.update(stop as int, v));
        assert forall|p: int| 0 <= p < after.len() && #[trigger] after[p] != SENTINEL implies in_run(
            source,
            after[p],
            occurrences(source.take(n + 1), after[p]),
            p,
        ) by {
            if p != stop {
                assert(after[p] == slots[p]);
                assert(in_run(source, slots[p], occurrences(source.take(n), slots[p]), p));
            }
        }
        assert forall|w: i32, p: int|
            w != SENTINEL && #[trigger] in_run(
                source,
                w,
                occurrences(source.take(n + 1), w),
                p,
            ) implies after[p] == w by {
            lemma_count_bounds(source, w);
            lemma_occurrences_prefix(source, n, w);
            if p != stop {
                assert(in_run(source, w, occurrences(source.take(n), w), p));
            } else if w != v {
                assert(in_run(source, w, occurrences(source.take(n), w), p));
            }
        }
    }
}

/// Claims made by the true ranks leave the slots settled at every step.
proof fn lemma_scattered_settled(source: Seq<i32>, n: nat)
    requires
        n <= source.len(),
    ensures
        settled(scattered(source, ranks(source), n), source, n as int),
    decreases n,
{
    if n == 0 {
        let slots = scattered(source, ranks(source), 0);
        assert(source.take(0).len() == 0);
    } else {
        lemma_scattered_settled(source, (n - 1) as nat);
        lemma_claim_settled(scattered(source, ranks(source), (n - 1) as nat), source, n - 1);
    }
}

/// Slots that are settled once every element has claimed its own hold the
/// ascending arrangement of the source, whichever way that arrangement is
/// described.
pub proof fn lemma_settled_sorted(slots: Seq<i32>, source: Seq<i32>, sorted: Seq<i32>)
    requires
        settled(slots, source, source.len() as int),
        ascending(sorted),
        permutation_of(sorted, source),
    ensures
        slots == sorted,
{
    let whole = source.take(source.len() as int);
    to_multiset_len(source);
    to_multiset_len(sorted);
    assert forall|p: int| 0 <= p < sorted.len() implies slots[p] == sorted[p] by {
        let v = sorted[p];
        assert(whole =~= source);
        lemma_ascending_position(sorted, p);
        lemma_count_permutation(sorted, source, v);
        assert(in_run(source, v, occurrences(whole, v), p));
        if v == SENTINEL && slots[p] != SENTINEL {
            let w = slots[p];
            assert(in_run(source, w, occurrences(whole, w), p));
            if w < v {
                lemma_count_ordered(source, w, v);
            } else {
                lemma_count_ordered(source, v, w);
            }
        }
    }
    assert(slots =~= sorted);
}

/// Once every element has claimed its slot by its true rank, the slots hold
/// the ascending arrangement of the source.
pub proof fn lemma_scatter_by_ranks(source: Seq<i32>, sorted: Seq<i32>)
    requires
        ascending(sorted),
        permutation_of(sorted, source),
    ensures
        scatter(source, ranks(source)) == sorted,
{
    lemma_scattered_settled(source, source.len());
    lemma_settled_sorted(scatter(source, ranks(source)), source, sorted);
}

/// A row of `n` slots, all empty.
pub fn empty_slots(n: usize) -> (slots: Vec<i32>)
    ensures
        slots@ == Seq::new(n as nat, |p: int| SENTINEL),
{
    let mut slots: Vec<i32> = Vec::new();
    let mut p: usize = 0;
    while p < n
        invariant
            p <= n,
            slots@ == Seq::new(p as nat, |q: int| SENTINEL),
        decreases n - p,
    {
        slots.push(SENTINEL);
        p = p + 1;
        proof {
            assert(slots@ =~= Seq::new(p as nat, |q: int| SENTINEL));
        }
    }
    slots
}

/// Places every element of `source` into the first empty slot at or after its
/// count, one element after another in the order of `source`. An element that
/// finds no empty slot from its count to the end is left out.
pub fn rank_scatter(source: &Vec<i32>, counts: &Vec<usize>) -> (results: Vec<i32>)
    requires
        counts@.len() == source@.len(),
    ensures
        results@ == scatter(source@, as_ranks(counts@)),
        results@.len() == source@.len(),
{
    let n = source.len();
    let mut results = empty_slots(n);
    let mut id: usize = 0;
    while id < n
        invariant
            n == source.len(),
            n == counts.len(),
            id <= n,
            results@.len() == n,
            results@ == scattered(source@, as_ranks(counts@), id as nat),
        decreases n - id,
    {
        let mut slot = counts[id];
        while slot < n && results[slot] != SENTINEL
            invariant
                results@.len() == n,
                first_empty(results@, slot as nat) == first_empty(
                    results@,
                    as_ranks(counts@)[id as int],
                ),
                id < counts.len(),
            decreases n - slot,
        {
            slot = slot + 1;
        }
        if slot < n {
            results.set(slot, source[id]);
        }
        id = id + 1;
    }
    results
}

} // verus!
