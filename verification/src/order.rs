//! The vocabulary in which the sorting contracts are stated.

use vstd::prelude::*;

verus! {

/// `s` never decreases from left to right.
pub open spec fn ascending(s: Seq<i32>) -> bool {
    forall|i: int, j: int| 0 <= i <= j < s.len() ==> s[i] <= s[j]
}

/// `a` holds the same values as `b`, each as often.
pub open spec fn permutation_of(a: Seq<i32>, b: Seq<i32>) -> bool {
    a.to_multiset() == b.to_multiset()
}

} // verus!
