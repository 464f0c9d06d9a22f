//! Device time: what the profiling timestamps of the two kernels add up to.

use vstd::prelude::*;

verus! {

/// When a kernel started and ended on the device, in nanoseconds of the
/// device's clock.
#[derive(Clone, Copy, Debug, PartialEq, Eq, Structural)]
pub struct KernelTime {
    pub start: u64,
    pub end: u64,
}

impl KernelTime {
    /// The time between start and end, where the end is not before the start.
    pub open spec fn span(self) -> Option<u64> {
        if self.start <= self.end {
            Some((self.end - self.start) as u64)
        } else {
            None
        }
    }

    /// The nanoseconds that the kernel ran, or `None` where the timestamps
    /// are out of order.
    pub fn elapsed(&self) -> (ns: Option<u64>)
        ensures
            ns == self.span(),
    {
        if self.start <= self.end {
            Some(self.end - self.start)
        } else {
            None
        }
    }
}

/// The time of both kernels together, where each has one and the sum fits.
pub open spec fn total_span(counter: KernelTime, scatter: KernelTime) -> Option<u64> {
    match (counter.span(), scatter.span()) {
        (Some(a), Some(b)) => if a + b <= u64::MAX {
            Some((a + b) as u64)
        } else {
            None
        },
        _ => None,
    }
}

/// The device time of a whole sort: the nanoseconds of the counting kernel
/// plus those of the placement kernel. `None` where a kernel's timestamps are
/// out of order or the sum does not fit.
pub fn device_time(counter: &KernelTime, scatter: &KernelTime) -> (ns: Option<u64>)
    ensures
        ns == total_span(*counter, *scatter),
{
    match (counter.elapsed(), scatter.elapsed()) {
        (Some(a), Some(b)) => if a <= u64::MAX - b {
            Some(a + b)
        } else {
            None
        },
        _ => None,
    }
}

} // verus!
