//! The sequential baseline: a top-down merge sort.

use vstd::prelude::*;
use vstd::seq_lib::*;
use vstd::slice::*;

use crate::order::{ascending, permutation_of};

verus! {

/// Two runs interleaved by always taking the smaller front element, the left
/// one on a tie.
pub open spec fn merged(left: Seq<i32>, right: Seq<i32>) -> Seq<i32>
    decreases left.len() + right.len(),
{
    if left.len() == 0 {
        right
    } else if right.len() == 0 {
        left
    } else if left[0] <= right[0] {
        seq![left[0]] + merged(left.drop_first(), right)
    } else {
        seq![right[0]] + merged(left, right.drop_first())
    }
}

/// A sequence split at its midpoint, each half sorted, the halves merged.
pub open spec fn merge_sorted(s: Seq<i32>) -> Seq<i32>
    decreases s.len(),
{
    if s.len() < 2 {
        s
    } else {
        let mid = (s.len() / 2) as int;
        merged(merge_sorted(s.take(mid)), merge_sorted(s.skip(mid)))
    }
}

/// Merging loses nothing and invents nothing.
pub proof fn lemma_merged_permutation(left: Seq<i32>, right: Seq<i32>)
    ensures
        merged(left, right).len() == left.len() + right.len(),
        merged(left, right).to_multiset() == left.to_multiset().add(right.to_multiset()),
    decreases left.len() + right.len(),
{
    broadcast use vstd::multiset::group_multiset_axioms;

    let m = merged(left, right);
    if left.len() == 0 {
        lemma_multiset_commutative(left, right);
        assert(left + right =~= right);
    } else if right.len() == 0 {
        lemma_multiset_commutative(left, right);
        assert(left + right =~= left);
    } else if left[0] <= right[0] {
        let rest = merged(left.drop_first(), right);
        lemma_merged_permutation(left.drop_first(), right);
        lemma_multiset_commutative(seq![left[0]], rest);
        lemma_multiset_commutative(seq![left[0]], left.drop_first());
        assert(seq![left[0]] + left.drop_first() =~= left);
        assert(m.to_multiset() =~= left.to_multiset().add(right.to_multiset()));
    } else {
        let rest = merged(left, right.drop_first());
        lemma_merged_permutation(left, right.drop_first());
        lemma_multiset_commutative(seq![right[0]], rest);
        lemma_multiset_commutative(seq![right[0]], right.drop_first());
        assert(seq![right[0]] + right.drop_first() =~= right);
        assert(m.to_multiset() =~= left.to_multiset().add(right.to_multiset()));
    }
}

/// Merging two ascending runs gives an ascending run, and no element of it
/// lies under a bound that lies under both inputs.
pub proof fn lemma_merged_ascending(left: Seq<i32>, right: Seq<i32>, floor: i32)
    requires
        ascending(left),
        ascending(right),
        forall|i: int| 0 <= i < left.len() ==> floor <= left[i],
        forall|j: int| 0 <= j < right.len() ==> floor <= right[j],
    ensures
        ascending(merged(left, right)),
        forall|k: int| 0 <= k < merged(left, right).len() ==> floor <= merged(left, right)[k],
    decreases left.len() + right.len(),
{
    if left.len() == 0 || right.len() == 0 {
    } else if left[0] <= right[0] {
        let tail = left.drop_first();
        assert forall|i: int| 0 <= i < tail.len() implies left[0] <= tail[i] by {
            assert(tail[i] == left[i + 1]);
        }
        assert(ascending(tail)) by {
            assert forall|i: int, j: int| 0 <= i <= j < tail.len() implies tail[i] <= tail[j] by {
                assert(tail[i] == left[i + 1] && tail[j] == left[j + 1]);
            }
        }
        lemma_merged_ascending(tail, right, left[0]);
    } else {
        let tail = right.drop_first();
        assert forall|j: int| 0 <= j < tail.len() implies right[0] <= tail[j] by {
            assert(tail[j] == right[j + 1]);
        }
        assert(ascending(tail)) by {
            assert forall|i: int, j: int| 0 <= i <= j < tail.len() implies tail[i] <= tail[j] by {
                assert(tail[i] == right[i + 1] && tail[j] == right[j + 1]);
            }
        }
        lemma_merged_ascending(left, tail, right[0]);
    }
}

/// The merge sort of any sequence is the ascending arrangement of its values.
pub proof fn lemma_merge_sorted(s: Seq<i32>)
    ensures
        merge_sorted(s).len() == s.len(),
        ascending(merge_sorted(s)),
        permutation_of(merge_sorted(s), s),
    decreases s.len(),
{
    if s.len() >= 2 {
        let mid = (s.len() / 2) as int;
        let a = merge_sorted(s.take(mid));
        let b = merge_sorted(s.skip(mid));
        lemma_merge_sorted(s.take(mid));
        lemma_merge_sorted(s.skip(mid));
        lemma_merged_permutation(a, b);
        lemma_merged_ascending(a, b, i32::MIN);
        lemma_multiset_commutative(s.take(mid), s.skip(mid));
        assert(s.take(mid) + s.skip(mid) =~= s);
    }
}

/// Merges two runs into one, taking at each step the smaller front element
/// and the left one on a tie.
pub fn merge(left: &Vec<i32>, right: &Vec<i32>) -> (out: Vec<i32>)
    ensures
        out@ == merged(left@, right@),
        out@.len() == left@.len() + right@.len(),
        out@.to_multiset() == left@.to_multiset().add(right@.to_multiset()),
        ascending(left@) && ascending(right@) ==> ascending(out@),
{
    let mut i: usize = 0;
    let mut j: usize = 0;
    let mut out: Vec<i32> = Vec::new();

    proof {
        assert(left@.skip(0) =~= left@);
        assert(right@.skip(0) =~= right@);
        assert(out@ + merged(left@, right@) =~= merged(left@, right@));
    }
    while i < left.len() && j < right.len()
        invariant
            i <= left.len(),
            j <= right.len(),
            out@ + merged(left@.skip(i as int), right@.skip(j as int)) == merged(left@, right@),
        decreases left.len() - i + right.len() - j,
    {
        let ghost l = left@.skip(i as int);
        let ghost r = right@.skip(j as int);
        if left[i] <= right[j] {
            proof {
                assert(l.drop_first() =~= left@.skip(i + 1));
                assert(out@.push(left[i as int]) + merged(l.drop_first(), r) =~= out@ + merged(
                    l,
                    r,
                ));
            }
            out.push(left[i]);
            i = i + 1;
        } else {
            proof {
                assert(r.drop_first() =~= right@.skip(j + 1));
                assert(out@.push(right[j as int]) + merged(l, r.drop_first()) =~= out@ + merged(
                    l,
                    r,
                ));
            }
            out.push(right[j]);
            j = j + 1;
        }
    }

    while i < left.len()
        invariant
            i <= left.len(),
            j <= right.len(),
            i < left.len() ==> j == right.len(),
            out@ + merged(left@.skip(i as int), right@.skip(j as int)) == merged(left@, right@),
        decreases left.len() - i,
    {
        proof {
            let l = left@.skip(i as int);
            let r = right@.skip(j as int);
            assert(l.drop_first() =~= left@.skip(i + 1));
            assert(merged(l.drop_first(), r) =~= l.drop_first());
            assert(out@.push(left[i as int]) + l.drop_first() =~= out@ + l);
        }
        out.push(left[i]);
        i = i + 1;
    }

    while j < right.len()
        invariant
            i == left.len(),
            j <= right.len(),
            out@ + merged(left@.skip(i as int), right@.skip(j as int)) == merged(left@, right@),
        decreases right.len() - j,
    {
        proof {
            let l = left@.skip(i as int);
            let r = right@.skip(j as int);
            assert(r.drop_first() =~= right@.skip(j + 1));
            assert(out@.push(right[j as int]) + r.drop_first() =~= out@ + r);
        }
        out.push(right[j]);
        j = j + 1;
    }

    proof {
        assert(out@ + merged(left@.skip(i as int), right@.skip(j as int)) =~= out@);
        lemma_merged_permutation(left@, right@);
        if ascending(left@) && ascending(right@) {
            lemma_merged_ascending(left@, right@, i32::MIN);
        }
    }
    out
}

/// Sorts by splitting at the midpoint, sorting each half and merging them.
pub fn merge_sort(vec: &Vec<i32>) -> (out: Vec<i32>)
    ensures
        out@ == merge_sorted(vec@),
        out@.len() == vec@.len(),
        ascending(out@),
        permutation_of(out@, vec@),
    decreases vec.len(),
{
    proof {
        lemma_merge_sorted(vec@);
    }
    if vec.len() < 2 {
        slice_to_vec(vec.as_slice())
    } else {
        let size = vec.len() / 2;
        let left = merge_sort(&slice_to_vec(slice_subrange(vec.as_slice(), 0, size)));
        let right = merge_sort(&slice_to_vec(slice_subrange(vec.as_slice(), size, vec.len())));
        merge(&left, &right)
    }
}

} // verus!
