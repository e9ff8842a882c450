//! When a cycle is started. Times are in milliseconds, counted from a common start.

use vstd::prelude::*;

use super::region::HeapOptions;

pub mod adaptive;
pub mod static_;

verus! {

/// How much a cycle beside the mutators takes back of the penalties.
pub const CONCURRENT_ADJUST: i64 = -1;

/// How much a cycle that had to stop the world in the middle adds to the penalties.
pub const DEGENERATED_PENALTY: i64 = 10;

/// How much a full cycle adds to the penalties.
pub const FULL_PENALTY: i64 = 20;

/// What is known of the cycles so far.
#[derive(Clone, Copy, PartialEq, Eq, Debug, Structural)]
pub struct CycleHistory {
    pub degenerated_cycles_in_a_row: usize,
    pub successful_cycles_in_a_row: usize,
    pub cycle_start: u64,
    pub last_cycle_end: u64,
    pub gc_times_learned: usize,
    pub gc_time_penalties: i64,
}

/// The penalties after a step, which stay between none and a hundred.
pub open spec fn stepped_penalty(penalty: int, step: int) -> int {
    if penalty + step < 0 {
        0
    } else if penalty + step > 100 {
        100
    } else {
        penalty + step
    }
}

/// Whether so much time has passed that a cycle is due in any case.
pub open spec fn interval_over(h: CycleHistory, now: u64, opts: HeapOptions) -> bool {
    opts.guaranteed_gc_interval > 0 && now - h.last_cycle_end > opts.guaranteed_gc_interval
}

impl CycleHistory {
    /// The penalties are in bounds.
    pub open spec fn wf(&self) -> bool {
        0 <= self.gc_time_penalties <= 100
    }

    pub fn new(now: u64) -> (r: Self)
        ensures
            r.wf(),
            r == (CycleHistory {
                degenerated_cycles_in_a_row: 0,
                successful_cycles_in_a_row: 0,
                cycle_start: now,
                last_cycle_end: now,
                gc_times_learned: 0,
                gc_time_penalties: 0,
            }),
    {
        CycleHistory {
            degenerated_cycles_in_a_row: 0,
            successful_cycles_in_a_row: 0,
            cycle_start: now,
            last_cycle_end: now,
            gc_times_learned: 0,
            gc_time_penalties: 0,
        }
    }

    pub fn record_cycle_start(&mut self, now: u64)
        ensures
            *final(self) == (CycleHistory { cycle_start: now, ..*old(self) }),
    {
        self.cycle_start = now;
    }

    pub fn record_cycle_end(&mut self, now: u64)
        ensures
            *final(self) == (CycleHistory { last_cycle_end: now, ..*old(self) }),
    {
        self.last_cycle_end = now;
    }

    /// Whether so much time has passed that a cycle is due in any case.
    pub fn should_start_gc(&self, now: u64, opts: &HeapOptions) -> (r: bool)
        requires
            self.last_cycle_end <= now,
        ensures
            r == interval_over(*self, now, *opts),
    {
        opts.guaranteed_gc_interval > 0 && now - self.last_cycle_end
            > opts.guaranteed_gc_interval as u64
    }

    /// Whether a cancelled cycle is brought to an end, and not replaced by a full one.
    pub fn should_degenerate_cycle(&self, opts: &HeapOptions) -> (r: bool)
        ensures
            r == (self.degenerated_cycles_in_a_row <= opts.full_gc_threshold),
    {
        self.degenerated_cycles_in_a_row <= opts.full_gc_threshold
    }

    pub fn adjust_penalty(&mut self, step: i64)
        requires
            i64::MIN <= old(self).gc_time_penalties + step <= i64::MAX,
        ensures
            final(self).wf(),
            *final(self) == (CycleHistory {
                gc_time_penalties: stepped_penalty(
                    old(self).gc_time_penalties as int,
                    step as int,
                ) as i64,
                ..*old(self)
            }),
    {
        let mut new_val: i64 = self.gc_time_penalties + step;
        if new_val < 0 {
            new_val = 0;
        }
        if new_val > 100 {
            new_val = 100;
        }
        self.gc_time_penalties = new_val;
    }

    /// Notes a cycle that ran beside the mutators to its end.
    pub fn record_success_concurrent(&mut self)
        requires
            old(self).wf(),
            old(self).successful_cycles_in_a_row < usize::MAX,
            old(self).gc_times_learned < usize::MAX,
        ensures
            final(self).wf(),
            *final(self) == (CycleHistory {
                degenerated_cycles_in_a_row: 0,
                successful_cycles_in_a_row: (old(self).successful_cycles_in_a_row + 1) as usize,
                gc_times_learned: (old(self).gc_times_learned + 1) as usize,
                gc_time_penalties: stepped_penalty(
                    old(self).gc_time_penalties as int,
                    -1,
                ) as i64,
                ..*old(self)
            }),
    {
        self.degenerated_cycles_in_a_row = 0;
        self.successful_cycles_in_a_row = self.successful_cycles_in_a_row + 1;
        self.gc_times_learned = self.gc_times_learned + 1;
        self.adjust_penalty(CONCURRENT_ADJUST);
    }

    /// Notes a cycle that was cancelled and brought to an end.
    pub fn record_success_degenerated(&mut self)
        requires
            old(self).wf(),
            old(self).degenerated_cycles_in_a_row < usize::MAX,
        ensures
            final(self).wf(),
            *final(self) == (CycleHistory {
                degenerated_cycles_in_a_row: (old(self).degenerated_cycles_in_a_row + 1) as usize,
                successful_cycles_in_a_row: 0,
                gc_time_penalties: stepped_penalty(
                    old(self).gc_time_penalties as int,
                    10,
                ) as i64,
                ..*old(self)
            }),
    {
        self.degenerated_cycles_in_a_row = self.degenerated_cycles_in_a_row + 1;
        self.successful_cycles_in_a_row = 0;
        self.adjust_penalty(DEGENERATED_PENALTY);
    }

    /// Notes a full cycle.
    pub fn record_success_full(&mut self)
        requires
            old(self).wf(),
            old(self).successful_cycles_in_a_row < usize::MAX,
        ensures
            final(self).wf(),
            *final(self) == (CycleHistory {
                degenerated_cycles_in_a_row: 0,
                successful_cycles_in_a_row: (old(self).successful_cycles_in_a_row + 1) as usize,
                gc_time_penalties: stepped_penalty(
                    old(self).gc_time_penalties as int,
                    20,
                ) as i64,
                ..*old(self)
            }),
    {
        self.degenerated_cycles_in_a_row = 0;
        self.successful_cycles_in_a_row = self.successful_cycles_in_a_row + 1;
        self.adjust_penalty(FULL_PENALTY);
    }

    /// Notes that a user asked for a cycle. It is taken to mean that the circumstances have
    /// changed, and that the times of cycles have to be learned anew.
    pub fn record_requested_gc(&mut self)
        ensures
            *final(self) == (CycleHistory { gc_times_learned: 0, ..*old(self) }),
    {
        self.gc_times_learned = 0;
    }

    pub fn time_since_last_gc(&self, now: u64) -> (r: u64)
        requires
            self.cycle_start <= now,
        ensures
            r == now - self.cycle_start,
    {
        now - self.cycle_start
    }
}

/// What a step does to the penalties: they stay in bounds, change by the step unless that
/// would leave them, and a larger step never makes them smaller.
pub proof fn lemma_penalty(penalty: int, step: int, larger: int)
    requires
        0 <= penalty <= 100,
        step <= larger,
    ensures
        0 <= stepped_penalty(penalty, step) <= 100,
        0 <= penalty + step <= 100 ==> stepped_penalty(penalty, step) == penalty + step,
        stepped_penalty(penalty, step) <= stepped_penalty(penalty, larger),
        step <= 0 ==> stepped_penalty(penalty, step) <= penalty,
        0 <= step ==> penalty <= stepped_penalty(penalty, step),
{
}

} // verus!
