//! Instants read from the CPU's performance counter.
use vstd::prelude::*;

verus! {

/// Access to a CPU's performance counter.
pub trait ArchFunctionality {
    /// Value of the counter.
    fn cpu_count() -> u64;

    /// Value in Hz of how often the counter increments.
    fn perf_frequency() -> u64;

    /// Value the counter starts with when it rolls over.
    fn cpu_count_start() -> u64 {
        0
    }

    /// Value the counter ends with before it rolls over.
    fn cpu_count_end() -> u64 {
        u64::MAX
    }
}

/// A reading of the performance counter, with the counter's frequency.
#[derive(Debug, Clone, Copy, PartialEq, Eq, Structural)]
pub struct Instant {
    cpu_count: u64,
    frequency: u64,
}

impl Instant {
    pub closed spec fn count(self) -> u64 {
        self.cpu_count
    }

    pub closed spec fn hz(self) -> u64 {
        self.frequency
    }

    /// The instant the counter of `A` shows now.
    pub fn now<A: ArchFunctionality>() -> (r: Instant) {
        Self::from_cpu_count::<A>(A::cpu_count())
    }

    /// The instant at which the counter of `A` shows `cpu_count`.
    pub fn from_cpu_count<A: ArchFunctionality>(cpu_count: u64) -> (r: Instant)
        ensures
            r.count() == cpu_count,
    {
        Instant { cpu_count, frequency: A::perf_frequency() }
    }

    /// The instant at which the counter of `A` starts.
    pub fn beginning<A: ArchFunctionality>() -> (r: Instant) {
        Instant { cpu_count: A::cpu_count_start(), frequency: A::perf_frequency() }
    }

    /// The counter value.
    pub fn cpu_count(&self) -> (r: u64)
        ensures
            r == self.count(),
    {
        self.cpu_count
    }

    /// The counter's frequency in Hz.
    pub fn frequency(&self) -> (r: u64)
        ensures
            r == self.hz(),
    {
        self.frequency
    }

    /// Counter ticks from `earlier` to this instant; `earlier` must not be
    /// later.
    pub fn cycles_since(&self, earlier: &Instant) -> (r: u64)
        requires
            earlier.count() <= self.count(),
        ensures
            r == self.count() - earlier.count(),
    {
        self.cpu_count - earlier.cpu_count
    }
}

} // verus!
