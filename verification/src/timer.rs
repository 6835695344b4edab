//! Time, derived from the count of the platform timer.

use vstd::prelude::*;
use crate::config::CLOCK_FREQ;

verus! {

/// Timer interrupts per second.
pub const TICKS_PER_SEC: u64 = 100;

/// Milliseconds per second.
pub const MSEC_PER_SEC: u64 = 1000;

/// Microseconds per second.
pub const USEC_PER_SEC: u64 = 1_000_000;

/// A time of day: whole seconds and the microseconds past them.
#[derive(Clone, Copy, Debug, PartialEq, Eq, Structural)]
pub struct TimeVal {
    pub sec: u64,
    pub usec: u64,
}

/// Milliseconds that `cycles` ticks of the timer take.
pub open spec fn spec_time_ms(cycles: u64) -> u64 {
    cycles / (CLOCK_FREQ / MSEC_PER_SEC) as u64
}

/// Milliseconds that `cycles` ticks of the timer take.
#[verifier::when_used_as_spec(spec_time_ms)]
pub fn get_time_ms(cycles: u64) -> (ms: u64)
    ensures
        ms == spec_time_ms(cycles),
{
    cycles / (CLOCK_FREQ / MSEC_PER_SEC)
}

/// The time of day at `cycles` ticks of the timer: the whole seconds, and
/// the rest in microseconds.
pub open spec fn spec_time_val(cycles: u64) -> TimeVal {
    TimeVal {
        sec: cycles / CLOCK_FREQ,
        usec: ((cycles % CLOCK_FREQ) * USEC_PER_SEC / CLOCK_FREQ as int) as u64,
    }
}

/// The time of day at `cycles` ticks of the timer.
#[verifier::when_used_as_spec(spec_time_val)]
pub fn time_val(cycles: u64) -> (tv: TimeVal)
    ensures
        tv == spec_time_val(cycles),
        tv.usec < USEC_PER_SEC,
{
    TimeVal { sec: cycles / CLOCK_FREQ, usec: (cycles % CLOCK_FREQ) * USEC_PER_SEC / CLOCK_FREQ }
}

/// The count of the timer at which the next timer interrupt is due, one
/// tick of the scheduler after `cycles`.
pub open spec fn spec_next_trigger(cycles: u64) -> u64 {
    if cycles + CLOCK_FREQ / TICKS_PER_SEC > u64::MAX {
        u64::MAX
    } else {
        (cycles + CLOCK_FREQ / TICKS_PER_SEC) as u64
    }
}

/// The count of the timer at which the next timer interrupt is due.
#[verifier::when_used_as_spec(spec_next_trigger)]
pub fn next_trigger(cycles: u64) -> (deadline: u64)
    ensures
        deadline == spec_next_trigger(cycles),
{
    cycles.saturating_add(CLOCK_FREQ / TICKS_PER_SEC)
}

} // verus!
