//! Supervisor timer: when the next periodic interrupt is due.

use vstd::prelude::*;

verus! {

/// Interval between timer interrupts, in ticks of the `time` counter.
pub const TIMER_INTERVAL: u64 = 5_000_000;

/// The deadline for the next timer interrupt, one interval after `now`.
pub fn next_deadline(now: u64) -> (r: u64)
    requires
        now + TIMER_INTERVAL <= u64::MAX,
    ensures
        r == now + TIMER_INTERVAL,
        r == now + 5_000_000,
{
    now + TIMER_INTERVAL
}

} // verus!
