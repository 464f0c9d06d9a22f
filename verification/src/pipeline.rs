//! One sort on an accelerator, seen from the host: which command comes next,
//! what it waits for, what it is given, and what a failure of it means.
//!
//! Nothing here talks to a device. The caller performs each command and
//! reports how it went.

use vstd::prelude::*;

use crate::scatter::{empty_slots, SENTINEL};

verus! {

/// The three buffers that a sort keeps on the device.
#[derive(Clone, Copy, Debug, PartialEq, Eq, Structural)]
pub enum Buffer {
    /// The values to sort; the kernels only read it.
    Source,
    /// One count per element, zero at the start.
    Counts,
    /// One slot per element, empty at the start.
    Results,
}

/// The two kernels of a sort.
#[derive(Clone, Copy, Debug, PartialEq, Eq, Structural)]
pub enum Kernel {
    /// Compares all pairs and counts, for each element, the smaller ones.
    Counter,
    /// Places each element into the first empty slot from its count on.
    Scatter,
}

/// One command of a sort.
#[derive(Clone, Copy, Debug, PartialEq, Eq, Structural)]
pub enum Step {
    /// Create a buffer on the device.
    Allocate(Buffer),
    /// Write a buffer's initial contents to the device.
    Upload(Buffer),
    /// Enqueue a kernel.
    Launch(Kernel),
    /// Enqueue the read of the results buffer.
    Download,
    /// Wait until the read has completed.
    Await,
}

/// Why a sort did not complete. Each carries the step that failed.
#[derive(Clone, Copy, Debug, PartialEq, Eq, Structural)]
pub enum SortError {
    /// A buffer could not be created.
    Allocation(Step),
    /// A transfer or a kernel could not be enqueued.
    Launch(Step),
    /// Waiting for completion failed.
    Synchronization(Step),
}

/// The commands of a sort in the order in which they are issued: buffers,
/// uploads, the counting kernel, the placement kernel, the read, the wait.
pub open spec fn plan() -> Seq<Step> {
    seq![
        Step::Allocate(Buffer::Source),
        Step::Allocate(Buffer::Counts),
        Step::Allocate(Buffer::Results),
        Step::Upload(Buffer::Source),
        Step::Upload(Buffer::Counts),
        Step::Upload(Buffer::Results),
        Step::Launch(Kernel::Counter),
        Step::Launch(Kernel::Scatter),
        Step::Download,
        Step::Await,
    ]
}

/// The position of a step in the plan.
pub open spec fn position(step: Step) -> nat {
    match step {
        Step::Allocate(Buffer::Source) => 0,
        Step::Allocate(Buffer::Counts) => 1,
        Step::Allocate(Buffer::Results) => 2,
        Step::Upload(Buffer::Source) => 3,
        Step::Upload(Buffer::Counts) => 4,
        Step::Upload(Buffer::Results) => 5,
        Step::Launch(Kernel::Counter) => 6,
        Step::Launch(Kernel::Scatter) => 7,
        Step::Download => 8,
        Step::Await => 9,
    }
}

/// The commands whose completion a step waits for before it may run.
pub open spec fn dependencies(step: Step) -> Seq<Step> {
    match step {
        Step::Allocate(_) => seq![],
        Step::Upload(buffer) => seq![Step::Allocate(buffer)],
        Step::Launch(Kernel::Counter) => seq![
            Step::Upload(Buffer::Source),
            Step::Upload(Buffer::Counts),
        ],
        Step::Launch(Kernel::Scatter) => seq![
            Step::Upload(Buffer::Results),
            Step::Launch(Kernel::Counter),
        ],
        Step::Download => seq![Step::Launch(Kernel::Counter), Step::Launch(Kernel::Scatter)],
        Step::Await => seq![Step::Download],
    }
}

/// The error that a failure of `step` is reported as.
pub open spec fn failure_of(step: Step) -> SortError {
    match step {
        Step::Allocate(_) => SortError::Allocation(step),
        Step::Upload(_) | Step::Launch(_) | Step::Download => SortError::Launch(step),
        Step::Await => SortError::Synchronization(step),
    }
}

/// Every step stands in the plan once, at its position.
pub proof fn lemma_plan_positions(step: Step)
    ensures
        position(step) < plan().len(),
        plan()[position(step) as int] == step,
        forall|k: int| 0 <= k < plan().len() && plan()[k] == step ==> k == position(step),
{
}

/// Whatever a step waits for stands earlier in the plan than the step.
pub proof fn lemma_dependencies_precede(step: Step, k: int)
    requires
        0 <= k < dependencies(step).len(),
    ensures
        position(dependencies(step)[k]) < position(step),
{
}

/// The plan holds the four stages in their order: every upload precedes the
/// counting kernel, that precedes the placement kernel, and that the read.
pub proof fn lemma_stage_order(buffer: Buffer)
    ensures
        position(Step::Allocate(buffer)) < position(Step::Upload(buffer)),
        position(Step::Upload(buffer)) < position(Step::Launch(Kernel::Counter)),
        position(Step::Launch(Kernel::Counter)) < position(Step::Launch(Kernel::Scatter)),
        position(Step::Launch(Kernel::Scatter)) < position(Step::Download),
        position(Step::Download) < position(Step::Await),
{
}

/// The step at a position of the plan, if there is one.
pub fn step_at(index: usize) -> (step: Option<Step>)
    ensures
        step == if index < plan().len() {
            Some(plan()[index as int])
        } else {
            None
        },
{
    match index {
        0 => Some(Step::Allocate(Buffer::Source)),
        1 => Some(Step::Allocate(Buffer::Counts)),
        2 => Some(Step::Allocate(Buffer::Results)),
        3 => Some(Step::Upload(Buffer::Source)),
        4 => Some(Step::Upload(Buffer::Counts)),
        5 => Some(Step::Upload(Buffer::Results)),
        6 => Some(Step::Launch(Kernel::Counter)),
        7 => Some(Step::Launch(Kernel::Scatter)),
        8 => Some(Step::Download),
        9 => Some(Step::Await),
        _ => None,
    }
}

/// The commands that `step` must wait for.
pub fn wait_list(step: Step) -> (list: Vec<Step>)
    ensures
        list@ == dependencies(step),
{
    let mut list: Vec<Step> = Vec::new();
    match step {
        Step::Allocate(_) => {},
        Step::Upload(buffer) => {
            list.push(Step::Allocate(buffer));
        },
        Step::Launch(Kernel::Counter) => {
            list.push(Step::Upload(Buffer::Source));
            list.push(Step::Upload(Buffer::Counts));
        },
        Step::Launch(Kernel::Scatter) => {
            list.push(Step::Upload(Buffer::Results));
            list.push(Step::Launch(Kernel::Counter));
        },
        Step::Download => {
            list.push(Step::Launch(Kernel::Counter));
            list.push(Step::Launch(Kernel::Scatter));
        },
        Step::Await => {
            list.push(Step::Download);
        },
    }
    proof {
        assert(list@ =~= dependencies(step));
    }
    list
}

/// The error that a failure of `step` is reported as: a failed allocation, a
/// failed wait, or, of every other step, a failed launch.
pub fn classify(step: Step) -> (error: SortError)
    ensures
        error == failure_of(step),
{
    match step {
        Step::Allocate(_) => SortError::Allocation(step),
        Step::Upload(_) => SortError::Launch(step),
        Step::Launch(_) => SortError::Launch(step),
        Step::Download => SortError::Launch(step),
        Step::Await => SortError::Synchronization(step),
    }
}

/// The buffers that a kernel is given, in the order of its parameters.
pub open spec fn parameters(kernel: Kernel) -> Seq<Buffer> {
    match kernel {
        Kernel::Counter => seq![Buffer::Source, Buffer::Counts],
        Kernel::Scatter => seq![Buffer::Source, Buffer::Counts, Buffer::Results],
    }
}

/// The buffers to pass to `kernel`, in the order of its parameters: the
/// source and the counts, and for the placement the results too.
pub fn arguments(kernel: Kernel) -> (buffers: Vec<Buffer>)
    ensures
        buffers@ == parameters(kernel),
{
    let mut buffers: Vec<Buffer> = Vec::new();
    buffers.push(Buffer::Source);
    buffers.push(Buffer::Counts);
    match kernel {
        Kernel::Counter => {},
        Kernel::Scatter => {
            buffers.push(Buffer::Results);
        },
    }
    proof {
        assert(buffers@ =~= parameters(kernel));
    }
    buffers
}

/// Whether the kernels only read `buffer`: true of the source alone.
pub fn read_only(buffer: Buffer) -> (only_read: bool)
    ensures
        only_read == (buffer == Buffer::Source),
{
    match buffer {
        Buffer::Source => true,
        Buffer::Counts => false,
        Buffer::Results => false,
    }
}

/// By the time a kernel is launched, each of its buffers has been uploaded.
pub proof fn lemma_arguments_uploaded(kernel: Kernel, k: int)
    requires
        0 <= k < parameters(kernel).len(),
    ensures
        position(Step::Upload(parameters(kernel)[k])) < position(Step::Launch(kernel)),
{
}

/// The global work size of a kernel for `n` elements: one work item per pair
/// of elements for the counting kernel, one per element for the placement.
pub fn work_size(kernel: Kernel, n: usize) -> (dims: Vec<usize>)
    ensures
        dims@ == match kernel {
            Kernel::Counter => seq![n, n],
            Kernel::Scatter => seq![n],
        },
{
    let mut dims: Vec<usize> = Vec::new();
    dims.push(n);
    match kernel {
        Kernel::Counter => {
            dims.push(n);
        },
        Kernel::Scatter => {},
    }
    proof {
        assert(dims@ =~= match kernel {
            Kernel::Counter => seq![n, n],
            Kernel::Scatter => seq![n],
        });
    }
    dims
}

/// What a buffer holds before any kernel has run.
pub open spec fn initial(buffer: Buffer, source: Seq<i32>) -> Seq<i32> {
    match buffer {
        Buffer::Source => source,
        Buffer::Counts => Seq::new(source.len(), |i: int| 0i32),
        Buffer::Results => Seq::new(source.len(), |i: int| SENTINEL),
    }
}

/// The contents to upload into `buffer` for a sort of `source`: the source
/// itself, a zero for every element, or an empty slot for every element.
pub fn initial_contents(buffer: Buffer, source: &Vec<i32>) -> (contents: Vec<i32>)
    ensures
        contents@ == initial(buffer, source@),
{
    match buffer {
        Buffer::Source => {
            let mut copy: Vec<i32> = Vec::new();
            let mut i: usize = 0;
            while i < source.len()
                invariant
                    i <= source.len(),
                    copy@ == source@.take(i as int),
                decreases source.len() - i,
            {
                copy.push(source[i]);
                i = i + 1;
                proof {
                    assert(copy@ =~= source@.take(i as int));
                }
            }
            proof {
                assert(copy@ =~= source@);
            }
            copy
        },
        Buffer::Counts => {
            let mut zeros: Vec<i32> = Vec::new();
            let mut i: usize = 0;
            while i < source.len()
                invariant
                    i <= source.len(),
                    zeros@ == Seq::new(i as nat, |k: int| 0i32),
                decreases source.len() - i,
            {
                zeros.push(0);
                i = i + 1;
                proof {
                    assert(zeros@ =~= Seq::new(i as nat, |k: int| 0i32));
                }
            }
            zeros
        },
        Buffer::Results => empty_slots(source.len()),
    }
}

/// The progress of one sort: how many steps of the plan have completed, and
/// the failure that ended it, if one did.
pub struct SortRun {
    completed: usize,
    failure: Option<SortError>,
}

impl SortRun {
    #[verifier::type_invariant]
    spec fn consistent(&self) -> bool {
        &&& self.completed <= plan().len()
        &&& self.failure matches Some(error) ==> self.completed < plan().len() && error
            == failure_of(plan()[self.completed as int])
    }

    /// How many steps have completed.
    pub closed spec fn completed(&self) -> nat {
        self.completed as nat
    }

    /// The failure that ended the sort, if one did.
    pub closed spec fn failure(&self) -> Option<SortError> {
        self.failure
    }

    /// The step to perform next: the first of the plan that has not completed,
    /// unless the sort has failed.
    pub open spec fn pending(&self) -> Option<Step> {
        if self.failure() is None && self.completed() < plan().len() {
            Some(plan()[self.completed() as int])
        } else {
            None
        }
    }

    /// Every step of the plan has completed.
    pub open spec fn succeeded(&self) -> bool {
        self.failure() is None && self.completed() == plan().len()
    }

    /// A sort of which nothing has been done yet.
    pub fn new() -> (run: Self)
        ensures
            run.completed() == 0,
            run.failure() is None,
    {
        SortRun { completed: 0, failure: None }
    }

    /// The step to perform next, or `None` once the sort has succeeded or
    /// failed.
    pub fn next_step(&self) -> (step: Option<Step>)
        ensures
            step == self.pending(),
    {
        proof {
            use_type_invariant(self);
        }
        match self.failure {
            Some(_) => None,
            None => step_at(self.completed),
        }
    }

    /// Records how the pending step went. A success moves on to the next
    /// step; a failure ends the sort with the error of that step. Once the
    /// sort has ended, a report changes nothing.
    pub fn report(&mut self, ok: bool)
        ensures
            match old(self).pending() {
                None => final(self).completed() == old(self).completed() && final(self).failure()
                    == old(self).failure(),
                Some(step) => if ok {
                    final(self).completed() == old(self).completed() + 1 && final(self).failure()
                        is None
                } else {
                    final(self).completed() == old(self).completed() && final(self).failure()
                        == Some(failure_of(step))
                },
            },
    {
        proof {
            use_type_invariant(&*self);
        }
        match self.next_step() {
            None => {},
            Some(step) => {
                if ok {
                    self.completed = self.completed + 1;
                } else {
                    self.failure = Some(classify(step));
                }
            },
        }
    }

    /// How the sort ended: `None` while a step is pending, `Some(Ok(()))`
    /// once every step has completed, `Some(Err(..))` once a step has failed.
    pub fn outcome(&self) -> (end: Option<Result<(), SortError>>)
        ensures
            end is None <==> self.pending() is Some,
            end == Some(Ok::<(), SortError>(())) <==> self.succeeded(),
            forall|error: SortError|
                end == Some(Err::<(), SortError>(error)) <==> self.failure() == Some(error),
    {
        proof {
            use_type_invariant(self);
        }
        match self.failure {
            Some(error) => Some(Err(error)),
            None => if self.completed < 10 {
                None
            } else {
                Some(Ok(()))
            },
        }
    }
}

/// Whatever the pending step waits for has completed.
pub proof fn lemma_pending_step_is_ready(run: SortRun, step: Step, k: int)
    requires
        run.pending() == Some(step),
        0 <= k < dependencies(step).len(),
    ensures
        position(dependencies(step)[k]) < run.completed(),
{
    lemma_plan_positions(step);
    lemma_dependencies_precede(step, k);
}

} // verus!
