//! What is known of a cycle. Times are counted from a common start.

use vstd::prelude::*;

verus! {

/// Why a cycle runs.
#[derive(Clone, Copy, PartialEq, Eq, Debug, Structural)]
pub enum GCCause {
    Explicit,
    AllocationFailure,
    ConcurrentGC,
    UpgradeToFullGC,
    LastGCCause,
}

impl GCCause {
    pub fn is_allocation_failure(&self) -> (r: bool)
        ensures
            r == (*self == GCCause::AllocationFailure),
    {
        match self {
            GCCause::AllocationFailure => true,
            _ => false,
        }
    }

    pub fn is_user_requested(&self) -> (r: bool)
        ensures
            r == (*self == GCCause::Explicit),
    {
        match self {
            GCCause::Explicit => true,
            _ => false,
        }
    }
}

/// What is known of a cycle.
#[derive(Clone, Copy)]
pub struct SharedGCInfo {
    pub name: &'static str,
    pub cause: GCCause,
    pub start_timestamp: u64,
    pub end_timestamp: u64,
    pub sum_of_pauses: u64,
    pub longest_pause: u64,
}

impl SharedGCInfo {
    pub fn new(name: &'static str, now: u64) -> (r: Self)
        ensures
            r == (SharedGCInfo {
                name,
                cause: GCCause::LastGCCause,
                start_timestamp: now,
                end_timestamp: now,
                sum_of_pauses: 0,
                longest_pause: 0,
            }),
    {
        SharedGCInfo {
            name,
            cause: GCCause::LastGCCause,
            start_timestamp: now,
            end_timestamp: now,
            sum_of_pauses: 0,
            longest_pause: 0,
        }
    }

    pub fn set_start_timestamp(&mut self, start_timestamp: u64)
        ensures
            *final(self) == (SharedGCInfo { start_timestamp, ..*old(self) }),
    {
        self.start_timestamp = start_timestamp;
    }

    pub fn set_end_timestamp(&mut self, end_timestamp: u64)
        ensures
            *final(self) == (SharedGCInfo { end_timestamp, ..*old(self) }),
    {
        self.end_timestamp = end_timestamp;
    }

    pub fn set_sum_of_pauses(&mut self, sum_of_pauses: u64)
        ensures
            *final(self) == (SharedGCInfo { sum_of_pauses, ..*old(self) }),
    {
        self.sum_of_pauses = sum_of_pauses;
    }

    pub fn set_longest_pause(&mut self, longest_pause: u64)
        ensures
            *final(self) == (SharedGCInfo { longest_pause, ..*old(self) }),
    {
        self.longest_pause = longest_pause;
    }

    pub fn set_cause(&mut self, cause: GCCause)
        ensures
            *final(self) == (SharedGCInfo { cause, ..*old(self) }),
    {
        self.cause = cause;
    }

    pub fn name(&self) -> (r: &'static str)
        ensures
            r == self.name,
    {
        self.name
    }

    pub fn cause(&self) -> (r: GCCause)
        ensures
            r == self.cause,
    {
        self.cause
    }

    pub fn start_timestamp(&self) -> (r: u64)
        ensures
            r == self.start_timestamp,
    {
        self.start_timestamp
    }

    pub fn end_timestamp(&self) -> (r: u64)
        ensures
            r == self.end_timestamp,
    {
        self.end_timestamp
    }

    pub fn sum_of_pauses(&self) -> (r: u64)
        ensures
            r == self.sum_of_pauses,
    {
        self.sum_of_pauses
    }

    pub fn longest_pause(&self) -> (r: u64)
        ensures
            r == self.longest_pause,
    {
        self.longest_pause
    }

    pub fn duration(&self) -> (r: u64)
        requires
            self.start_timestamp <= self.end_timestamp,
        ensures
            r == self.end_timestamp - self.start_timestamp,
    {
        self.end_timestamp - self.start_timestamp
    }

    pub fn is_user_requested(&self) -> (r: bool)
        ensures
            r == (self.cause == GCCause::Explicit),
    {
        self.cause.is_user_requested()
    }

    pub fn is_allocation_failure(&self) -> (r: bool)
        ensures
            r == (self.cause == GCCause::AllocationFailure),
    {
        self.cause.is_allocation_failure()
    }

    pub fn is_concurrent(&self) -> (r: bool)
        ensures
            r == (self.cause == GCCause::ConcurrentGC),
    {
        match self.cause {
            GCCause::ConcurrentGC => true,
            _ => false,
        }
    }

    pub fn is_upgrade_to_full(&self) -> (r: bool)
        ensures
            r == (self.cause == GCCause::UpgradeToFullGC),
    {
        match self.cause {
            GCCause::UpgradeToFullGC => true,
            _ => false,
        }
    }
}

} // verus!
