//! The rank sort itself: the counting stage followed by the placement stage.

use vstd::prelude::*;
use vstd::seq_lib::*;

use crate::merge::{lemma_merge_sorted, merge_sorted};
use crate::order::{ascending, permutation_of};
use crate::rank::{lemma_descending_ranks, rank_counts, ranks};
use crate::scatter::{lemma_scatter_by_ranks, rank_scatter, scatter};

verus! {

/// What the rank sort makes of `source`: every element placed by its rank.
pub open spec fn rank_sorted(source: Seq<i32>) -> Seq<i32> {
    scatter(source, ranks(source))
}

/// Sorts `source` into ascending order by ranking every element and placing
/// it by its rank. Equal elements come out side by side; no element is lost.
pub fn rank_sort(source: &Vec<i32>) -> (result: Vec<i32>)
    ensures
        result@ == rank_sorted(source@),
        result@.len() == source@.len(),
        ascending(result@),
        permutation_of(result@, source@),
{
    let counts = rank_counts(source);
    let result = rank_scatter(source, &counts);
    proof {
        lemma_rank_sorted(source@);
    }
    result
}

/// The rank sort of any sequence is as long as the sequence, is a permutation
/// of it, and has no element followed by a smaller one.
pub proof fn lemma_rank_sorted(source: Seq<i32>)
    ensures
        rank_sorted(source).len() == source.len(),
        permutation_of(rank_sorted(source), source),
        ascending(rank_sorted(source)),
        forall|k: int|
            0 <= k < rank_sorted(source).len() - 1 ==> #[trigger] rank_sorted(source)[k]
                <= rank_sorted(source)[k + 1],
{
    lemma_merge_sorted(source);
    lemma_scatter_by_ranks(source, merge_sorted(source));
}

/// The rank sort and the merge sort of a sequence are the same sequence,
/// whether or not a value occurs in it more than once.
pub proof fn lemma_rank_sorted_is_merge_sorted(source: Seq<i32>)
    ensures
        rank_sorted(source) == merge_sorted(source),
{
    lemma_merge_sorted(source);
    lemma_scatter_by_ranks(source, merge_sorted(source));
}

/// There is one ascending arrangement of a collection of values: two ascending
/// sequences that are permutations of each other are equal.
pub proof fn lemma_ascending_permutation_unique(a: Seq<i32>, b: Seq<i32>)
    requires
        ascending(a),
        ascending(b),
        permutation_of(a, b),
    ensures
        a == b,
{
    lemma_scatter_by_ranks(a, a);
    lemma_scatter_by_ranks(a, b);
}

/// Sorting what is already ascending changes nothing, so sorting twice is
/// sorting once.
pub proof fn lemma_rank_sorted_idempotent(source: Seq<i32>)
    ensures
        ascending(source) ==> rank_sorted(source) == source,
        rank_sorted(rank_sorted(source)) == rank_sorted(source),
{
    if ascending(source) {
        lemma_scatter_by_ranks(source, source);
    }
    lemma_rank_sorted(source);
    lemma_scatter_by_ranks(rank_sorted(source), rank_sorted(source));
}

/// A sequence of no element or of one is its own rank sort.
pub proof fn lemma_rank_sorted_short(source: Seq<i32>)
    requires
        source.len() <= 1,
    ensures
        rank_sorted(source) == source,
{
    lemma_scatter_by_ranks(source, source);
}

/// In a strictly descending sequence the ranks count down to zero, and its
/// rank sort is the sequence reversed.
pub proof fn lemma_rank_sorted_descending(source: Seq<i32>)
    requires
        forall|a: int, b: int| 0 <= a < b < source.len() ==> source[a] > source[b],
    ensures
        forall|i: int| 0 <= i < source.len() ==> #[trigger] ranks(source)[i] == source.len() - 1 - i,
        rank_sorted(source) == source.reverse(),
{
    assert forall|i: int| 0 <= i < source.len() implies #[trigger] ranks(source)[i] == source.len()
        - 1 - i by {
        lemma_descending_ranks(source, i);
    }
    source.lemma_reverse_to_multiset();
    lemma_scatter_by_ranks(source, source.reverse());
}

} // verus!
