//! Counting the elements of a sequence beneath a value and equal to it: the
//! two numbers that fix where a value belongs in the ascending arrangement.

use vstd::prelude::*;
use vstd::seq_lib::*;

use crate::order::{ascending, permutation_of};

verus! {

/// How many elements of `s` are strictly smaller than `v`.
pub open spec fn count_below(s: Seq<i32>, v: i32) -> nat
    decreases s.len(),
{
    if s.len() == 0 {
        0
    } else {
        count_below(s.drop_last(), v) + if s.last() < v {
            1nat
        } else {
            0nat
        }
    }
}

/// How many elements of `s` are equal to `v`.
pub open spec fn occurrences(s: Seq<i32>, v: i32) -> nat
    decreases s.len(),
{
    if s.len() == 0 {
        0
    } else {
        occurrences(s.drop_last(), v) + if s.last() == v {
            1nat
        } else {
            0nat
        }
    }
}

/// The elements beneath `v` and those equal to it are different elements.
pub proof fn lemma_count_bounds(s: Seq<i32>, v: i32)
    ensures
        count_below(s, v) + occurrences(s, v) <= s.len(),
    decreases s.len(),
{
    if s.len() > 0 {
        lemma_count_bounds(s.drop_last(), v);
    }
}

/// Whatever is beneath or equal to a smaller value is beneath a larger one.
pub proof fn lemma_count_ordered(s: Seq<i32>, w: i32, v: i32)
    requires
        w < v,
    ensures
        count_below(s, w) + occurrences(s, w) <= count_below(s, v),
    decreases s.len(),
{
    if s.len() > 0 {
        lemma_count_ordered(s.drop_last(), w, v);
    }
}

/// No element beneath `v` when every element is at least `v`.
pub proof fn lemma_count_none_below(s: Seq<i32>, v: i32)
    requires
        forall|i: int| 0 <= i < s.len() ==> v <= s[i],
    ensures
        count_below(s, v) == 0,
    decreases s.len(),
{
    if s.len() > 0 {
        lemma_count_none_below(s.drop_last(), v);
    }
}

/// Every element is counted when none exceeds `v`.
pub proof fn lemma_count_all_upto(s: Seq<i32>, v: i32)
    requires
        forall|i: int| 0 <= i < s.len() ==> s[i] <= v,
    ensures
        count_below(s, v) + occurrences(s, v) == s.len(),
    decreases s.len(),
{
    if s.len() > 0 {
        lemma_count_all_upto(s.drop_last(), v);
    }
}

/// An element of the sequence occurs in it.
pub proof fn lemma_occurrences_positive(s: Seq<i32>, i: int)
    requires
        0 <= i < s.len(),
    ensures
        occurrences(s, s[i]) > 0,
    decreases s.len(),
{
    if i < s.len() - 1 {
        lemma_occurrences_positive(s.drop_last(), i);
    }
}

/// A prefix holds a value no more often than the whole.
pub proof fn lemma_occurrences_prefix(s: Seq<i32>, n: int, v: i32)
    requires
        0 <= n <= s.len(),
    ensures
        occurrences(s.take(n), v) <= occurrences(s, v),
    decreases s.len(),
{
    if n == s.len() {
        assert(s.take(n) =~= s);
    } else {
        assert(s.drop_last().take(n) =~= s.take(n));
        lemma_occurrences_prefix(s.drop_last(), n, v);
    }
}

/// Lengthening a prefix by one element counts that element, and no other.
pub proof fn lemma_occurrences_step(s: Seq<i32>, n: int, v: i32)
    requires
        0 <= n < s.len(),
    ensures
        occurrences(s.take(n + 1), v) == occurrences(s.take(n), v) + if s[n] == v {
            1nat
        } else {
            0nat
        },
        count_below(s.take(n + 1), v) == count_below(s.take(n), v) + if s[n] < v {
            1nat
        } else {
            0nat
        },
{
    assert(s.take(n + 1).drop_last() =~= s.take(n));
}

/// `occurrences` is the multiplicity in the multiset of the sequence.
pub proof fn lemma_occurrences_multiset(s: Seq<i32>, v: i32)
    ensures
        occurrences(s, v) == s.to_multiset().count(v),
    decreases s.len(),
{
    broadcast use vstd::multiset::group_multiset_axioms;

    if s.len() == 0 {
        to_multiset_len(s);
        assert(s.to_multiset().count(v) <= s.to_multiset().len());
    } else {
        lemma_occurrences_multiset(s.drop_last(), v);
        to_multiset_build(s.drop_last(), s.last());
        assert(s.drop_last().push(s.last()) =~= s);
    }
}

/// Taking one element out lowers the count by that element's share.
pub proof fn lemma_count_below_remove(s: Seq<i32>, k: int, v: i32)
    requires
        0 <= k < s.len(),
    ensures
        count_below(s, v) == count_below(s.remove(k), v) + if s[k] < v {
            1nat
        } else {
            0nat
        },
    decreases s.len(),
{
    if k == s.len() - 1 {
        assert(s.remove(k) =~= s.drop_last());
    } else {
        assert(s.remove(k).drop_last() =~= s.drop_last().remove(k));
        lemma_count_below_remove(s.drop_last(), k, v);
    }
}

/// Rearranging a sequence changes no count.
pub proof fn lemma_count_permutation(s: Seq<i32>, t: Seq<i32>, v: i32)
    requires
        permutation_of(s, t),
    ensures
        count_below(s, v) == count_below(t, v),
        occurrences(s, v) == occurrences(t, v),
    decreases s.len(),
{
    broadcast use vstd::multiset::group_multiset_axioms;

    lemma_occurrences_multiset(s, v);
    lemma_occurrences_multiset(t, v);
    to_multiset_len(s);
    to_multiset_len(t);
    if s.len() > 0 {
        let x = s.last();
        let rest = s.drop_last();
        assert(rest.push(x) =~= s);
        to_multiset_build(rest, x);
        to_multiset_contains(t, x);
        assert(t.contains(x));
        let k = choose|k: int| 0 <= k < t.len() && t[k] == x;
        to_multiset_remove(t, k);
        assert(t.remove(k).to_multiset() =~= rest.to_multiset());
        lemma_count_permutation(rest, t.remove(k), v);
        lemma_count_below_remove(t, k, v);
    }
}

/// In an ascending sequence each position lies in the run of its own value:
/// past everything smaller, and not past everything equal.
pub proof fn lemma_ascending_position(t: Seq<i32>, p: int)
    requires
        ascending(t),
        0 <= p < t.len(),
    ensures
        count_below(t, t[p]) <= p < count_below(t, t[p]) + occurrences(t, t[p]),
    decreases t.len(),
{
    let rest = t.drop_last();
    let v = t[p];
    if p == t.len() - 1 {
        lemma_count_bounds(rest, v);
        lemma_count_all_upto(rest, v);
    } else {
        lemma_ascending_position(rest, p);
    }
}

} // verus!
