//! The placement stage as its workers run it: one worker for every element,
//! each trying slot after slot with an atomic compare-and-set, the attempts of
//! different workers interleaved in any order whatever.

use vstd::prelude::*;

use crate::counting::{
    count_below, lemma_count_bounds, lemma_count_ordered, lemma_occurrences_positive,
    lemma_occurrences_step, occurrences,
};
use crate::order::{ascending, permutation_of};
use crate::rank::{as_ranks, lemma_rank_in_bounds, ranks};
use crate::scatter::{
    claim, empty_slots, first_empty, in_run, lemma_settled_sorted, scatter, scattered, SENTINEL,
};

verus! {

/// The placement at one moment: what each slot holds, which slot each worker
/// tries next, and which workers are still trying.
pub struct Placement {
    pub slots: Seq<i32>,
    pub next: Seq<nat>,
    pub active: Seq<bool>,
}

impl Placement {
    /// There is a worker for every slot, and a worker that is still trying
    /// has its next slot inside the row.
    pub open spec fn wf(self) -> bool {
        &&& self.next.len() == self.slots.len()
        &&& self.active.len() == self.slots.len()
        &&& forall|id: int|
            0 <= id < self.slots.len() && #[trigger] self.active[id] ==> self.next[id]
                < self.slots.len()
    }

    /// No worker is trying any more.
    pub open spec fn quiescent(self) -> bool {
        forall|id: int| 0 <= id < self.active.len() ==> !#[trigger] self.active[id]
    }
}

/// Before the first attempt: every slot is empty and every worker stands at
/// its count. A worker whose count is past the end never tries.
pub open spec fn start(counts: Seq<nat>) -> Placement {
    Placement {
        slots: Seq::new(counts.len(), |p: int| SENTINEL),
        next: counts,
        active: Seq::new(counts.len(), |id: int| counts[id] < counts.len()),
    }
}

/// One attempt of worker `id`: a compare-and-set on its next slot. An empty
/// slot takes the worker's element and the worker is done. A taken slot sends
/// the worker on to the slot after it, or, where that is the end of the row,
/// out of the placement without its element placed. A worker that is done, or
/// that does not exist, changes nothing.
pub open spec fn attempt(state: Placement, source: Seq<i32>, id: nat) -> Placement {
    if id >= state.slots.len() || !state.active[id as int] {
        state
    } else {
        let slot = state.next[id as int];
        if slot >= state.slots.len() {
            Placement {
                slots: state.slots,
                next: state.next,
                active: state.active.update(id as int, false),
            }
        } else if state.slots[slot as int] == SENTINEL {
            Placement {
                slots: state.slots.update(slot as int, source[id as int]),
                next: state.next,
                active: state.active.update(id as int, false),
            }
        } else {
            Placement {
                slots: state.slots,
                next: state.next.update(id as int, slot + 1),
                active: state.active.update(id as int, slot + 1 < state.slots.len()),
            }
        }
    }
}

/// The placement after the attempts of `schedule`, one after another.
pub open spec fn run(state: Placement, source: Seq<i32>, schedule: Seq<usize>) -> Placement
    decreases schedule.len(),
{
    if schedule.len() == 0 {
        state
    } else {
        attempt(run(state, source, schedule.drop_last()), source, schedule.last() as nat)
    }
}

/// A bound on the attempts that worker `id` can still make.
pub open spec fn effort(state: Placement, id: nat) -> nat {
    if id < state.slots.len() && state.active[id as int] {
        if state.next[id as int] < state.slots.len() {
            (state.slots.len() - state.next[id as int] + 1) as nat
        } else {
            1
        }
    } else {
        0
    }
}

/// Worker `id` making its attempts one after another until it is done.
pub open spec fn finish_worker(state: Placement, source: Seq<i32>, id: nat) -> Placement
    decreases effort(state, id),
{
    if state.wf() && id < state.slots.len() && state.active[id as int] {
        finish_worker(attempt(state, source, id), source, id)
    } else {
        state
    }
}

/// The first `n` workers, one after another, each making its attempts until
/// it is done.
pub open spec fn finish(state: Placement, source: Seq<i32>, n: nat) -> Placement
    decreases n,
{
    if n == 0 {
        state
    } else {
        finish_worker(finish(state, source, (n - 1) as nat), source, (n - 1) as nat)
    }
}

/// How one attempt ends.
#[derive(Clone, Copy, Debug, PartialEq, Eq, Structural)]
pub enum Attempt {
    /// The worker was done before, or does not exist.
    Idle,
    /// The slot was empty and holds the worker's element now.
    Claimed,
    /// The slot was taken and the worker has moved on to the next.
    Moved,
    /// The slot was taken and was the last: the worker's element is left out.
    Dropped,
}

/// How an attempt of worker `id` ends.
pub open spec fn outcome(state: Placement, id: nat) -> Attempt {
    if id >= state.slots.len() || !state.active[id as int] {
        Attempt::Idle
    } else if state.next[id as int] >= state.slots.len() {
        Attempt::Dropped
    } else if state.slots[state.next[id as int] as int] == SENTINEL {
        Attempt::Claimed
    } else if state.next[id as int] + 1 < state.slots.len() {
        Attempt::Moved
    } else {
        Attempt::Dropped
    }
}

/// How many of the slots from `lo` up to `hi`, `hi` left out, are taken.
pub open spec fn filled(slots: Seq<i32>, lo: int, hi: int) -> nat
    decreases hi - lo,
{
    if hi <= lo {
        0
    } else {
        filled(slots, lo, hi - 1) + if slots[hi - 1] != SENTINEL {
            1nat
        } else {
            0nat
        }
    }
}

/// How many of the first `n` workers are done and had `v` to place.
pub open spec fn retired(source: Seq<i32>, active: Seq<bool>, v: i32, n: nat) -> nat
    decreases n,
{
    if n == 0 {
        0
    } else {
        retired(source, active, v, (n - 1) as nat) + if !active[n - 1] && source[n - 1] == v {
            1nat
        } else {
            0nat
        }
    }
}

proof fn lemma_filled_bound(slots: Seq<i32>, lo: int, hi: int)
    requires
        lo <= hi,
    ensures
        filled(slots, lo, hi) <= hi - lo,
    decreases hi - lo,
{
    if lo < hi {
        lemma_filled_bound(slots, lo, hi - 1);
    }
}

proof fn lemma_filled_all(slots: Seq<i32>, lo: int, hi: int)
    requires
        lo <= hi,
        forall|p: int| lo <= p < hi ==> slots[p] != SENTINEL,
    ensures
        filled(slots, lo, hi) == hi - lo,
    decreases hi - lo,
{
    if lo < hi {
        lemma_filled_all(slots, lo, hi - 1);
    }
}

proof fn lemma_filled_none(slots: Seq<i32>, lo: int, hi: int)
    requires
        forall|p: int| lo <= p < hi ==> slots[p] == SENTINEL,
    ensures
        filled(slots, lo, hi) == 0,
    decreases hi - lo,
{
    if lo < hi {
        lemma_filled_none(slots, lo, hi - 1);
    }
}

proof fn lemma_filled_full(slots: Seq<i32>, lo: int, hi: int)
    requires
        lo <= hi,
        filled(slots, lo, hi) == hi - lo,
    ensures
        forall|p: int| lo <= p < hi ==> slots[p] != SENTINEL,
    decreases hi - lo,
{
    if lo < hi {
        lemma_filled_bound(slots, lo, hi - 1);
        lemma_filled_full(slots, lo, hi - 1);
    }
}

proof fn lemma_filled_split(slots: Seq<i32>, lo: int, mid: int, hi: int)
    requires
        lo <= mid <= hi,
    ensures
        filled(slots, lo, hi) == filled(slots, lo, mid) + filled(slots, mid, hi),
    decreases hi - mid,
{
    if mid < hi {
        lemma_filled_split(slots, lo, mid, hi - 1);
    }
}

proof fn lemma_filled_update(slots: Seq<i32>, lo: int, hi: int, q: int, x: i32)
    requires
        0 <= lo <= hi <= slots.len(),
        0 <= q < slots.len(),
    ensures
        !(lo <= q < hi) ==> filled(slots.update(q, x), lo, hi) == filled(slots, lo, hi),
        lo <= q < hi && slots[q] == SENTINEL && x != SENTINEL ==> filled(
            slots.update(q, x),
            lo,
            hi,
        ) == filled(slots, lo, hi) + 1,
    decreases hi - lo,
{
    if lo < hi {
        lemma_filled_update(slots, lo, hi - 1, q, x);
    }
}

proof fn lemma_retired_bound(source: Seq<i32>, active: Seq<bool>, v: i32, n: nat, busy: int)
    requires
        n <= source.len(),
    ensures
        retired(source, active, v, n) <= occurrences(source.take(n as int), v),
        0 <= busy < n && active[busy] && source[busy] == v ==> retired(source, active, v, n)
            < occurrences(source.take(n as int), v),
    decreases n,
{
    if n > 0 {
        lemma_retired_bound(source, active, v, (n - 1) as nat, busy);
        lemma_occurrences_step(source, n - 1, v);
    }
}

proof fn lemma_retired_all(source: Seq<i32>, active: Seq<bool>, v: i32, n: nat)
    requires
        n <= source.len(),
        forall|id: int| 0 <= id < n ==> !active[id],
    ensures
        retired(source, active, v, n) == occurrences(source.take(n as int), v),
    decreases n,
{
    if n > 0 {
        lemma_retired_all(source, active, v, (n - 1) as nat);
        lemma_occurrences_step(source, n - 1, v);
    }
}

proof fn lemma_retired_none(source: Seq<i32>, active: Seq<bool>, v: i32, n: nat)
    requires
        forall|id: int| 0 <= id < n ==> active[id],
    ensures
        retired(source, active, v, n) == 0,
    decreases n,
{
    if n > 0 {
        lemma_retired_none(source, active, v, (n - 1) as nat);
    }
}

proof fn lemma_retire(source: Seq<i32>, active: Seq<bool>, id: int, v: i32, n: nat)
    requires
        0 <= id < active.len(),
        n <= active.len(),
    ensures
        retired(source, active.update(id, false), v, n) == retired(source, active, v, n) + if id
            < n && active[id] && source[id] == v {
            1nat
        } else {
            0nat
        },
    decreases n,
{
    if n > 0 {
        lemma_retire(source, active, id, v, (n - 1) as nat);
    }
}

/// What a worker that is still trying has behind it: every slot from the rank
/// of its value up to the slot it tries next is taken. A worker that carries
/// the value of an empty slot stands at its rank.
pub open spec fn probing(slots: Seq<i32>, source: Seq<i32>, value: i32, next: nat) -> bool {
    if value == SENTINEL {
        next == count_below(source, value)
    } else {
        &&& count_below(source, value) <= next
        &&& forall|p: int| count_below(source, value) <= p < next ==> slots[p] != SENTINEL
    }
}

/// What holds of a placement by true ranks at every moment, whatever the
/// order of the attempts so far: a taken slot lies in the run of the value it
/// holds; a worker still trying has only taken slots behind it; and of each
/// value as many slots of its run are taken as workers with that value are
/// done.
pub open spec fn orderly(state: Placement, source: Seq<i32>) -> bool {
    &&& state.wf()
    &&& state.slots.len() == source.len()
    &&& forall|p: int|
        0 <= p < state.slots.len() && #[trigger] state.slots[p] != SENTINEL ==> in_run(
            source,
            state.slots[p],
            occurrences(source, state.slots[p]),
            p,
        )
    &&& forall|id: int|
        0 <= id < source.len() && #[trigger] state.active[id] ==> probing(
            state.slots,
            source,
            source[id],
            state.next[id],
        )
    &&& forall|v: i32|
        v != SENTINEL ==> filled(
            state.slots,
            count_below(source, v) as int,
            (count_below(source, v) + occurrences(source, v)) as int,
        ) == #[trigger] retired(source, state.active, v, source.len())
}

/// Before the first attempt a placement by true ranks is orderly.
proof fn lemma_start_orderly(source: Seq<i32>)
    ensures
        orderly(start(ranks(source)), source),
{
    let state = start(ranks(source));
    assert forall|id: int| 0 <= id < source.len() implies #[trigger] state.active[id] by {
        lemma_rank_in_bounds(source, id);
    }
    assert forall|v: i32| v != SENTINEL implies filled(
        state.slots,
        count_below(source, v) as int,
        (count_below(source, v) + occurrences(source, v)) as int,
    ) == #[trigger] retired(source, state.active, v, source.len()) by {
        lemma_count_bounds(source, v);
        lemma_filled_none(
            state.slots,
            count_below(source, v) as int,
            (count_below(source, v) + occurrences(source, v)) as int,
        );
        lemma_retired_none(source, state.active, v, source.len());
    }
}

/// The runs of two different values share no slot.
proof fn lemma_runs_disjoint(source: Seq<i32>, v: i32, w: i32, p: int)
    requires
        in_run(source, v, occurrences(source, v), p),
        in_run(source, w, occurrences(source, w), p),
    ensures
        v == w,
{
    if v < w {
        lemma_count_ordered(source, v, w);
    } else if w < v {
        lemma_count_ordered(source, w, v);
    }
}

/// A worker that is still trying stands inside the run of its value.
proof fn lemma_worker_in_run(state: Placement, source: Seq<i32>, id: int)
    requires
        orderly(state, source),
        0 <= id < source.len(),
        state.active[id],
    ensures
        in_run(source, source[id], occurrences(source, source[id]), state.next[id] as int),
        source[id] == SENTINEL ==> state.slots[state.next[id] as int] == SENTINEL,
        state.slots[state.next[id] as int] != SENTINEL ==> state.next[id] + 1 < count_below(
            source,
            source[id],
        ) + occurrences(source, source[id]),
{
    let v = source[id];
    let base = count_below(source, v) as int;
    let occ = occurrences(source, v) as int;
    let slot = state.next[id] as int;
    lemma_count_bounds(source, v);
    lemma_occurrences_positive(source, id);
    assert(probing(state.slots, source, v, state.next[id]));
    if v == SENTINEL {
        if state.slots[slot] != SENTINEL {
            let w = state.slots[slot];
            assert(in_run(source, w, occurrences(source, w), slot));
            lemma_runs_disjoint(source, v, w, slot);
        }
    } else {
        lemma_retired_bound(source, state.active, v, source.len(), id);
        assert(source.take(source.len() as int) =~= source);
        assert(filled(state.slots, base, base + occ) == retired(
            source,
            state.active,
            v,
            source.len(),
        ));
        if slot >= base + occ {
            lemma_filled_all(state.slots, base, base + occ);
        }
        if state.slots[slot] != SENTINEL {
            lemma_filled_all(state.slots, base, slot + 1);
            lemma_filled_split(state.slots, base, slot + 1, base + occ);
        }
    }
}

/// An attempt keeps a placement by true ranks orderly.
pub proof fn lemma_attempt_orderly(state: Placement, source: Seq<i32>, id: nat)
    requires
        orderly(state, source),
    ensures
        orderly(attempt(state, source, id), source),
{
    let after = attempt(state, source, id);
    let n = source.len();
    if id < n && state.active[id as int] {
        let v = source[id as int];
        let base = count_below(source, v) as int;
        let occ = occurrences(source, v) as int;
        let slot = state.next[id as int] as int;
        lemma_worker_in_run(state, source, id as int);
        lemma_count_bounds(source, v);
        if state.slots[slot] == SENTINEL {
            assert(v == SENTINEL ==> after.slots =~= state.slots);
            assert forall|p: int|
                0 <= p < after.slots.len() && #[trigger] after.slots[p] != SENTINEL implies in_run(
                source,
                after.slots[p],
                occurrences(source, after.slots[p]),
                p,
            ) by {
                if p != slot {
                    assert(state.slots[p] != SENTINEL);
                }
            }
            assert forall|other: int|
                0 <= other < source.len() && #[trigger] after.active[other] implies probing(
                after.slots,
                source,
                source[other],
                after.next[other],
            ) by {
                assert(state.active[other]);
                assert(probing(state.slots, source, source[other], state.next[other]));
            }
            assert forall|w: i32| w != SENTINEL implies filled(
                after.slots,
                count_below(source, w) as int,
                (count_below(source, w) + occurrences(source, w)) as int,
            ) == #[trigger] retired(source, after.active, w, source.len()) by {
                let lo = count_below(source, w) as int;
                let hi = (count_below(source, w) + occurrences(source, w)) as int;
                lemma_count_bounds(source, w);
                lemma_retire(source, state.active, id as int, w, source.len());
                assert(filled(state.slots, lo, hi) == retired(
                    source,
                    state.active,
                    w,
                    source.len(),
                ));
                if v != SENTINEL {
                    lemma_filled_update(state.slots, lo, hi, slot, v);
                    if w != v && lo <= slot < hi {
                        lemma_runs_disjoint(source, v, w, slot);
                    }
                }
            }
        } else {
            assert(after.active =~= state.active);
            assert forall|other: int|
                0 <= other < source.len() && #[trigger] after.active[other] implies probing(
                after.slots,
                source,
                source[other],
                after.next[other],
            ) by {
                assert(state.active[other]);
                assert(probing(state.slots, source, source[other], state.next[other]));
                if other == id {
                    assert forall|p: int| base <= p < slot + 1 implies state.slots[p]
                        != SENTINEL by {
                        if p < slot {
                            assert(state.slots[p] != SENTINEL);
                        }
                    }
                }
            }
        }
    }
}

/// A placement by true ranks is orderly after any attempts whatever.
pub proof fn lemma_run_orderly(source: Seq<i32>, schedule: Seq<usize>)
    ensures
        orderly(run(start(ranks(source)), source, schedule), source),
    decreases schedule.len(),
{
    if schedule.len() == 0 {
        lemma_start_orderly(source);
    } else {
        lemma_run_orderly(source, schedule.drop_last());
        lemma_attempt_orderly(
            run(start(ranks(source)), source, schedule.drop_last()),
            source,
            schedule.last() as nat,
        );
    }
}

/// Once no worker is trying any more, an orderly placement holds the
/// ascending arrangement of the source.
pub proof fn lemma_quiescent_sorted(state: Placement, source: Seq<i32>, sorted: Seq<i32>)
    requires
        orderly(state, source),
        state.quiescent(),
        ascending(sorted),
        permutation_of(sorted, source),
    ensures
        state.slots == sorted,
{
    let whole = source.take(source.len() as int);
    assert(whole =~= source);
    assert forall|v: i32, p: int|
        v != SENTINEL && #[trigger] in_run(source, v, occurrences(whole, v), p) implies state.slots[p]
        == v by {
        let lo = count_below(source, v) as int;
        let hi = (count_below(source, v) + occurrences(source, v)) as int;
        lemma_count_bounds(source, v);
        lemma_retired_all(source, state.active, v, source.len());
        assert(filled(state.slots, lo, hi) == retired(source, state.active, v, source.len()));
        lemma_filled_full(state.slots, lo, hi);
        let w = state.slots[p];
        assert(in_run(source, w, occurrences(source, w), p));
        lemma_runs_disjoint(source, v, w, p);
    }
    lemma_settled_sorted(state.slots, source, sorted);
}

/// An attempt leaves the other workers as they were, and takes the worker
/// that made it nearer to its end.
pub proof fn lemma_attempt_progress(state: Placement, source: Seq<i32>, id: nat)
    requires
        state.wf(),
    ensures
        attempt(state, source, id).wf(),
        attempt(state, source, id).slots.len() == state.slots.len(),
        forall|other: int|
            0 <= other < state.slots.len() && other != id ==> #[trigger] attempt(
                state,
                source,
                id,
            ).active[other] == state.active[other],
        forall|other: int|
            0 <= other < state.slots.len() && other != id ==> #[trigger] attempt(
                state,
                source,
                id,
            ).next[other] == state.next[other],
        id < state.slots.len() && state.active[id as int] ==> effort(
            attempt(state, source, id),
            id,
        ) < effort(state, id),
{
}

/// A worker that runs to its end is done, and has left the others alone.
pub proof fn lemma_finish_worker(state: Placement, source: Seq<i32>, id: nat)
    requires
        state.wf(),
    ensures
        finish_worker(state, source, id).wf(),
        finish_worker(state, source, id).slots.len() == state.slots.len(),
        id < state.slots.len() ==> !finish_worker(state, source, id).active[id as int],
        forall|other: int|
            0 <= other < state.slots.len() && other != id ==> #[trigger] finish_worker(
                state,
                source,
                id,
            ).active[other] == state.active[other],
        forall|other: int|
            0 <= other < state.slots.len() && other != id ==> #[trigger] finish_worker(
                state,
                source,
                id,
            ).next[other] == state.next[other],
    decreases effort(state, id),
{
    if id < state.slots.len() && state.active[id as int] {
        let after = attempt(state, source, id);
        lemma_attempt_progress(state, source, id);
        lemma_finish_worker(after, source, id);
        assert forall|other: int|
            0 <= other < state.slots.len() && other != id implies #[trigger] finish_worker(
            state,
            source,
            id,
        ).active[other] == state.active[other] by {
            assert(after.active[other] == state.active[other]);
        }
        assert forall|other: int|
            0 <= other < state.slots.len() && other != id implies #[trigger] finish_worker(
            state,
            source,
            id,
        ).next[other] == state.next[other] by {
            assert(after.next[other] == state.next[other]);
        }
    }
}

/// Once every worker has run to its end, none is trying any more.
pub proof fn lemma_finish_quiescent(state: Placement, source: Seq<i32>, n: nat)
    requires
        state.wf(),
        n <= state.slots.len(),
    ensures
        finish(state, source, n).wf(),
        finish(state, source, n).slots.len() == state.slots.len(),
        forall|id: int| 0 <= id < n ==> !#[trigger] finish(state, source, n).active[id],
        forall|id: int|
            n <= id < state.slots.len() ==> #[trigger] finish(state, source, n).active[id]
                == state.active[id],
        forall|id: int|
            n <= id < state.slots.len() ==> #[trigger] finish(state, source, n).next[id]
                == state.next[id],
        n == state.slots.len() ==> finish(state, source, n).quiescent(),
    decreases n,
{
    if n > 0 {
        let before = finish(state, source, (n - 1) as nat);
        let after = finish(state, source, n);
        lemma_finish_quiescent(state, source, (n - 1) as nat);
        lemma_finish_worker(before, source, (n - 1) as nat);
        assert forall|id: int| 0 <= id < n implies !#[trigger] after.active[id] by {
            if id < n - 1 {
                assert(!before.active[id]);
            }
        }
        assert forall|id: int| n <= id < state.slots.len() implies #[trigger] after.active[id]
            == state.active[id] by {
            assert(before.active[id] == state.active[id]);
        }
        assert forall|id: int| n <= id < state.slots.len() implies #[trigger] after.next[id]
            == state.next[id] by {
            assert(before.next[id] == state.next[id]);
        }
    }
}

/// Workers that run to their ends keep a placement by true ranks orderly.
pub proof fn lemma_finish_orderly(state: Placement, source: Seq<i32>, n: nat)
    requires
        orderly(state, source),
    ensures
        orderly(finish(state, source, n), source),
    decreases n,
{
    if n > 0 {
        lemma_finish_orderly(state, source, (n - 1) as nat);
        lemma_finish_worker_orderly(finish(state, source, (n - 1) as nat), source, (n - 1) as nat);
    }
}

proof fn lemma_finish_worker_orderly(state: Placement, source: Seq<i32>, id: nat)
    requires
        orderly(state, source),
    ensures
        orderly(finish_worker(state, source, id), source),
    decreases effort(state, id),
{
    if id < state.slots.len() && state.active[id as int] {
        lemma_attempt_progress(state, source, id);
        lemma_attempt_orderly(state, source, id);
        lemma_finish_worker_orderly(attempt(state, source, id), source, id);
    }
}

/// However the attempts of the workers interleave: once every worker is done,
/// a placement by true ranks holds the ascending arrangement of the source.
/// Equal elements may have changed places among themselves; nothing else
/// depends on the order of the attempts.
pub proof fn lemma_every_interleaving_sorts(
    source: Seq<i32>,
    schedule: Seq<usize>,
    sorted: Seq<i32>,
)
    requires
        run(start(ranks(source)), source, schedule).quiescent(),
        ascending(sorted),
        permutation_of(sorted, source),
    ensures
        run(start(ranks(source)), source, schedule).slots == sorted,
{
    lemma_run_orderly(source, schedule);
    lemma_quiescent_sorted(run(start(ranks(source)), source, schedule), source, sorted);
}

/// Whatever attempts were made first: once the workers still trying have run
/// to their ends, a placement by true ranks holds the ascending arrangement
/// of the source.
pub proof fn lemma_finished_interleaving_sorts(
    source: Seq<i32>,
    schedule: Seq<usize>,
    sorted: Seq<i32>,
)
    requires
        ascending(sorted),
        permutation_of(sorted, source),
    ensures
        finish(run(start(ranks(source)), source, schedule), source, source.len()).slots == sorted,
{
    let state = run(start(ranks(source)), source, schedule);
    lemma_run_orderly(source, schedule);
    lemma_finish_orderly(state, source, source.len());
    lemma_finish_quiescent(state, source, source.len());
    lemma_quiescent_sorted(finish(state, source, source.len()), source, sorted);
}

/// Attempts keep the number of slots and of workers.
pub proof fn lemma_run_wf(state: Placement, source: Seq<i32>, schedule: Seq<usize>)
    requires
        state.wf(),
    ensures
        run(state, source, schedule).wf(),
        run(state, source, schedule).slots.len() == state.slots.len(),
    decreases schedule.len(),
{
    if schedule.len() > 0 {
        lemma_run_wf(state, source, schedule.drop_last());
        lemma_attempt_progress(
            run(state, source, schedule.drop_last()),
            source,
            schedule.last() as nat,
        );
    }
}

/// A worker that runs to its end without another in between does what one
/// claim does: its element goes into the first empty slot from where it
/// stands.
pub proof fn lemma_finish_worker_claims(state: Placement, source: Seq<i32>, id: nat)
    requires
        state.wf(),
        id < state.slots.len(),
    ensures
        finish_worker(state, source, id).slots == if state.active[id as int] {
            claim(state.slots, state.next[id as int], source[id as int])
        } else {
            state.slots
        },
    decreases effort(state, id),
{
    if state.active[id as int] {
        let after = attempt(state, source, id);
        let slot = state.next[id as int];
        lemma_attempt_progress(state, source, id);
        lemma_finish_worker_claims(after, source, id);
        if state.slots[slot as int] != SENTINEL {
            assert(first_empty(state.slots, slot) == first_empty(state.slots, slot + 1));
        }
    }
}

/// The workers running to their ends one after another, in the order of the
/// source, place what the claims made in that order place.
pub proof fn lemma_in_order_is_scatter(source: Seq<i32>, counts: Seq<nat>, n: nat)
    requires
        counts.len() == source.len(),
        n <= source.len(),
    ensures
        finish(start(counts), source, n).slots == scattered(source, counts, n),
    decreases n,
{
    if n > 0 {
        let before = finish(start(counts), source, (n - 1) as nat);
        lemma_in_order_is_scatter(source, counts, (n - 1) as nat);
        lemma_finish_quiescent(start(counts), source, (n - 1) as nat);
        lemma_finish_worker_claims(before, source, (n - 1) as nat);
        assert(before.active[n - 1] == start(counts).active[n - 1]);
        assert(before.next[n - 1] == start(counts).next[n - 1]);
        if !before.active[n - 1] {
            assert(first_empty(before.slots, counts[n - 1]) == before.slots.len());
        }
    }
}

/// The workers of one placement, to be run in any order.
pub struct Workers {
    slots: Vec<i32>,
    next: Vec<usize>,
    active: Vec<bool>,
}

impl View for Workers {
    type V = Placement;

    closed spec fn view(&self) -> Placement {
        Placement { slots: self.slots@, next: as_ranks(self.next@), active: self.active@ }
    }
}

impl Workers {
    /// A worker for every count, each at its count, and as many empty slots.
    pub fn start(counts: &Vec<usize>) -> (workers: Workers)
        ensures
            workers@ == start(as_ranks(counts@)),
            workers@.wf(),
    {
        let n = counts.len();
        let slots = empty_slots(n);
        let mut next: Vec<usize> = Vec::new();
        let mut active: Vec<bool> = Vec::new();
        let mut id: usize = 0;
        while id < n
            invariant
                n == counts.len(),
                id <= n,
                next@ == counts@.take(id as int),
                active@ == Seq::new(id as nat, |k: int| counts@[k] < n),
            decreases n - id,
        {
            next.push(counts[id]);
            active.push(counts[id] < n);
            id = id + 1;
            proof {
                assert(next@ =~= counts@.take(id as int));
                assert(active@ =~= Seq::new(id as nat, |k: int| counts@[k] < n));
            }
        }
        proof {
            assert(counts@.take(n as int) =~= counts@);
            let begun = start(as_ranks(counts@));
            assert(active@ =~= begun.active);
            assert(slots@ =~= begun.slots);
            assert(as_ranks(next@) =~= begun.next);
        }
        Workers { slots, next, active }
    }

    /// Whether worker `id` is still trying.
    pub fn is_active(&self, id: usize) -> (trying: bool)
        requires
            self@.wf(),
        ensures
            trying == (id < self@.slots.len() && self@.active[id as int]),
    {
        id < self.active.len() && self.active[id]
    }

    /// Whether no worker is trying any more.
    pub fn quiescent(&self) -> (done: bool)
        ensures
            done == self@.quiescent(),
    {
        let mut id: usize = 0;
        while id < self.active.len()
            invariant
                id <= self.active.len(),
                forall|k: int| 0 <= k < id ==> !#[trigger] self.active@[k],
            decreases self.active.len() - id,
        {
            if self.active[id] {
                proof {
                    assert(self@.active[id as int]);
                }
                return false;
            }
            id = id + 1;
        }
        proof {
            assert forall|k: int| 0 <= k < self@.active.len() implies !#[trigger] self@.active[k] by {
                assert(!self.active@[k]);
            }
        }
        true
    }

    /// One attempt of worker `id`: a compare-and-set on the slot where it
    /// stands.
    pub fn attempt(&mut self, source: &Vec<i32>, id: usize) -> (result: Attempt)
        requires
            old(self)@.wf(),
            source@.len() == old(self)@.slots.len(),
        ensures
            final(self)@ == attempt(old(self)@, source@, id as nat),
            final(self)@.wf(),
            final(self)@.slots.len() == old(self)@.slots.len(),
            result == outcome(old(self)@, id as nat),
    {
        let ghost before = self@;
        if id >= self.active.len() || !self.active[id] {
            return Attempt::Idle;
        }
        let slot = self.next[id];
        let result = if self.slots[slot] == SENTINEL {
            self.slots.set(slot, source[id]);
            self.active.set(id, false);
            Attempt::Claimed
        } else if slot + 1 < self.slots.len() {
            self.next.set(id, slot + 1);
            Attempt::Moved
        } else {
            self.active.set(id, false);
            self.next.set(id, slot + 1);
            Attempt::Dropped
        };
        proof {
            let after = attempt(before, source@, id as nat);
            assert(self@.slots =~= after.slots);
            assert(self@.next =~= after.next);
            assert(self@.active =~= after.active);
        }
        result
    }

    /// Lets every worker that is still trying run to its end, one worker after
    /// another in the order of the source.
    pub fn finish(&mut self, source: &Vec<i32>)
        requires
            old(self)@.wf(),
            source@.len() == old(self)@.slots.len(),
        ensures
            final(self)@ == finish(old(self)@, source@, source@.len()),
            final(self)@.wf(),
            final(self)@.quiescent(),
    {
        let n = source.len();
        let mut id: usize = 0;
        while id < n
            invariant
                n == source.len(),
                id <= n,
                old(self)@.wf(),
                old(self)@.slots.len() == n,
                self@.wf(),
                self@.slots.len() == n,
                self@ == finish(old(self)@, source@, id as nat),
            decreases n - id,
        {
            let ghost entry = self@;
            while self.is_active(id)
                invariant
                    n == source.len(),
                    id < n,
                    self@.wf(),
                    self@.slots.len() == n,
                    finish_worker(self@, source@, id as nat) == finish_worker(
                        entry,
                        source@,
                        id as nat,
                    ),
                decreases effort(self@, id as nat),
            {
                proof {
                    lemma_attempt_progress(self@, source@, id as nat);
                }
                self.attempt(source, id);
            }
            id = id + 1;
        }
        proof {
            lemma_finish_quiescent(old(self)@, source@, n as nat);
        }
    }

    /// What the slots hold.
    pub fn into_slots(self) -> (slots: Vec<i32>)
        ensures
            slots@ == self@.slots,
    {
        self.slots
    }
}

/// Runs the placement with the attempts of its workers interleaved as
/// `schedule` says, each entry one attempt of the worker it names, and then
/// lets the workers still trying run to their ends. With the true ranks for
/// counts the result is the ascending arrangement of `source`, whatever the
/// schedule.
pub fn rank_scatter_interleaved(source: &Vec<i32>, counts: &Vec<usize>, schedule: &Vec<usize>) -> (results:
    Vec<i32>)
    requires
        counts@.len() == source@.len(),
    ensures
        results@ == finish(
            run(start(as_ranks(counts@)), source@, schedule@),
            source@,
            source@.len(),
        ).slots,
        results@.len() == source@.len(),
        schedule@.len() == 0 ==> results@ == scatter(source@, as_ranks(counts@)),
        as_ranks(counts@) == ranks(source@) ==> results@ == scatter(source@, ranks(source@)),
{
    let mut workers = Workers::start(counts);
    let ghost begun = workers@;
    let mut k: usize = 0;
    proof {
        assert(schedule@.take(0) =~= Seq::<usize>::empty());
    }
    while k < schedule.len()
        invariant
            k <= schedule.len(),
            begun == start(as_ranks(counts@)),
            begun.wf(),
            begun.slots.len() == source@.len(),
            workers@ == run(begun, source@, schedule@.take(k as int)),
        decreases schedule.len() - k,
    {
        proof {
            lemma_run_wf(begun, source@, schedule@.take(k as int));
            assert(schedule@.take(k + 1).drop_last() =~= schedule@.take(k as int));
        }
        workers.attempt(source, schedule[k]);
        k = k + 1;
    }
    proof {
        assert(schedule@.take(k as int) =~= schedule@);
        lemma_run_wf(begun, source@, schedule@);
        lemma_finish_quiescent(workers@, source@, source@.len());
        if schedule@.len() == 0 {
            lemma_in_order_is_scatter(source@, as_ranks(counts@), source@.len());
        }
        if as_ranks(counts@) == ranks(source@) {
            crate::merge::lemma_merge_sorted(source@);
            lemma_finished_interleaving_sorts(
                source@,
                schedule@,
                crate::merge::merge_sorted(source@),
            );
            crate::scatter::lemma_scatter_by_ranks(source@, crate::merge::merge_sorted(source@));
        }
    }
    workers.finish(source);
    workers.into_slots()
}

} // verus!
