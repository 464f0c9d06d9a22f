//! Inputs: random values under a bound, and the test whether given values
//! stay under one.

use rand::Rng;
use vstd::prelude::*;

verus! {

/// Every value is at least zero and less than `bound`.
pub open spec fn bounded(values: Seq<i32>, bound: i32) -> bool {
    forall|i: int| 0 <= i < values.len() ==> 0 <= #[trigger] values[i] < bound
}

/// Calls `rand::Rng::gen_range` on `rand::thread_rng()` with the range from
/// zero up to `bound`, `bound` left out. Taken on trust: the value lies in that
/// range. Which value it is differs from call to call. An empty range makes
/// `gen_range` panic, so `bound` must be positive.
#[verifier::external_body]
fn random_below(bound: i32) -> (value: i32)
    requires
        bound > 0,
    ensures
        0 <= value < bound,
{
    rand::thread_rng().gen_range(0..bound)
}

/// `size` random values, each at least zero and less than `bound`. With
/// `size` zero no value is drawn and any `bound` will do.
pub fn random_input(size: usize, bound: i32) -> (input: Vec<i32>)
    requires
        size > 0 ==> bound > 0,
    ensures
        input@.len() == size,
        bounded(input@, bound),
{
    let mut input: Vec<i32> = Vec::new();
    let mut i: usize = 0;
    while i < size
        invariant
            i <= size,
            size > 0 ==> bound > 0,
            input@.len() == i,
            bounded(input@, bound),
        decreases size - i,
    {
        let value = random_below(bound);
        input.push(value);
        i = i + 1;
    }
    input
}

/// Whether every value is at least zero and less than `bound`.
pub fn within_bound(values: &Vec<i32>, bound: i32) -> (ok: bool)
    ensures
        ok == bounded(values@, bound),
{
    let mut i: usize = 0;
    while i < values.len()
        invariant
            i <= values.len(),
            bounded(values@.take(i as int), bound),
        decreases values.len() - i,
    {
        if values[i] < 0 || values[i] >= bound {
            return false;
        }
        i = i + 1;
        proof {
            assert forall|k: int| 0 <= k < i implies 0 <= #[trigger] values@.take(i as int)[k]
                < bound by {
                if k < i - 1 {
                    assert(values@.take(i as int)[k] == values@.take(i - 1)[k]);
                }
            }
        }
    }
    proof {
        assert(values@.take(values.len() as int) =~= values@);
    }
    true
}

} // verus!
