//! The counting stage: an all-pairs comparison that gives every element its
//! rank.

use vstd::prelude::*;

use crate::counting::{count_below, lemma_count_bounds, lemma_count_none_below, lemma_occurrences_step};

verus! {

/// The rank of every element of `source`: how many elements are strictly
/// smaller than it. Where all values differ, this is the element's position in
/// the ascending arrangement.
pub open spec fn ranks(source: Seq<i32>) -> Seq<nat> {
    Seq::new(source.len(), |i: int| count_below(source, source[i]))
}

/// A vector of counts read as natural numbers.
pub open spec fn as_ranks(counts: Seq<usize>) -> Seq<nat> {
    Seq::new(counts.len(), |i: int| counts[i] as nat)
}

/// No rank reaches the length of the sequence.
pub proof fn lemma_rank_in_bounds(source: Seq<i32>, i: int)
    requires
        0 <= i < source.len(),
    ensures
        ranks(source)[i] < source.len(),
{
    let v = source[i];
    lemma_count_bounds(source, v);
    crate::counting::lemma_occurrences_positive(source, i);
}

/// In a strictly descending sequence the ranks count down from the length
/// less one to zero.
pub proof fn lemma_descending_ranks(source: Seq<i32>, i: int)
    requires
        forall|a: int, b: int| 0 <= a < b < source.len() ==> source[a] > source[b],
        0 <= i < source.len(),
    ensures
        ranks(source)[i] == source.len() - 1 - i,
    decreases source.len(),
{
    let rest = source.drop_last();
    if i == source.len() - 1 {
        lemma_count_none_below(rest, source[i]);
    } else {
        lemma_descending_ranks(rest, i);
    }
}

/// Compares every element with every other and counts, for each, the
/// elements strictly smaller than it.
pub fn rank_counts(source: &Vec<i32>) -> (counts: Vec<usize>)
    ensures
        as_ranks(counts@) == ranks(source@),
        counts@.len() == source@.len(),
        forall|i: int|
            0 <= i < source@.len() ==> #[trigger] counts@[i] == count_below(source@, source@[i]),
{
    let n = source.len();
    let mut counts: Vec<usize> = Vec::new();
    let mut i: usize = 0;
    while i < n
        invariant
            n == source.len(),
            i <= n,
            counts@.len() == i,
            forall|k: int| 0 <= k < i ==> #[trigger] counts@[k] == count_below(source@, source@[k]),
        decreases n - i,
    {
        let mut smaller: usize = 0;
        let mut j: usize = 0;
        while j < n
            invariant
                n == source.len(),
                i < n,
                j <= n,
                smaller <= j,
                smaller == count_below(source@.take(j as int), source@[i as int]),
            decreases n - j,
        {
            proof {
                lemma_occurrences_step(source@, j as int, source@[i as int]);
            }
            if source[i] > source[j] {
                smaller = smaller + 1;
            }
            j = j + 1;
        }
        proof {
            assert(source@.take(n as int) =~= source@);
        }
        counts.push(smaller);
        i = i + 1;
    }
    proof {
        assert(as_ranks(counts@) =~= ranks(source@));
    }
    counts
}

} // verus!
