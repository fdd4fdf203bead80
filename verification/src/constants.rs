use vstd::prelude::*;

verus! {

/// Initial backing capacity of a sampling trace.
pub const INIT_TRACE_LENGTH: usize = 1 << 14;

/// Initial backing capacity of a histogram.
pub const INIT_HISTOGRAM_LENGTH: usize = 1 << 5;

/// Number of timer ticks in one reuse sampling burst.
pub const REUSE_BURST_LENGTH: usize = 3000;

/// Number of timer ticks the reuse counter hibernates between bursts.
pub const REUSE_HIBERNATION_PERIOD: usize = 6000;

/// Whether the counters advance their clocks only on allocations.  The
/// build fixes this to true and the tuner implements that configuration:
/// `malloc` drives both counters, `free` only records the event, and the
/// demand for a window of `k` allocations is `k - R(k)`.
pub const USE_ALLOCATION_CLOCK: bool = true;

/// Default target number of allocations serviced between batch fetches.
pub const TARGET_APF: usize = 2500;

/// Upper bound on timers, event counts and window lengths.  Keeping every
/// clock below this cap lets all derived statistics (sums of timestamps,
/// products of counts and window lengths) be computed without overflow.
pub const COUNTER_CAP: usize = 0x4000_0000;

} // verus!
