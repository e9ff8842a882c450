//! Cycles are started when a share of the heap has been allocated.

use vstd::prelude::*;

use super::{interval_over, CycleHistory};
use crate::heap::region::HeapOptions;

verus! {

/// Five minutes.
pub const DEFAULT_INTERVAL: usize = 300000;

/// Starts cycles when fixed limits are reached.
#[derive(Clone, Copy, PartialEq, Eq, Debug, Structural)]
pub struct StaticHeuristics {
    pub history: CycleHistory,
}

/// The options as these heuristics have them: values that have not been set get others.
pub open spec fn static_options(opts: HeapOptions) -> HeapOptions {
    HeapOptions {
        uncommit: true,
        allocation_threshold: if opts.allocation_threshold == 0 {
            10
        } else {
            opts.allocation_threshold
        },
        immediate_threshold: if opts.immediate_threshold == 90 {
            100
        } else {
            opts.immediate_threshold
        },
        uncommit_delay: if opts.uncommit_delay == 300000 {
            1000
        } else {
            opts.uncommit_delay
        },
        guaranteed_gc_interval: if opts.guaranteed_gc_interval == 300000 {
            30000
        } else {
            opts.guaranteed_gc_interval
        },
        ..opts
    }
}

impl StaticHeuristics {
    pub fn new(opts: &mut HeapOptions, now: u64) -> (r: Self)
        ensures
            *final(opts) == static_options(*old(opts)),
            r.history.wf(),
            r.history == (CycleHistory {
                degenerated_cycles_in_a_row: 0,
                successful_cycles_in_a_row: 0,
                cycle_start: now,
                last_cycle_end: now,
                gc_times_learned: 0,
                gc_time_penalties: 0,
            }),
    {
        opts.uncommit = true;
        if opts.allocation_threshold == 0 {
            opts.allocation_threshold = 10;
        }
        if opts.immediate_threshold == 90 {
            opts.immediate_threshold = 100;
        }
        if opts.uncommit_delay == DEFAULT_INTERVAL {
            opts.uncommit_delay = 1000;
        }
        if opts.guaranteed_gc_interval == DEFAULT_INTERVAL {
            opts.guaranteed_gc_interval = 30000;
        }
        StaticHeuristics { history: CycleHistory::new(now) }
    }

    /// Whether a cycle is due: little is free, much has been allocated since the last
    /// cycle, or much time has passed.
    pub fn should_start_gc(
        &self,
        max_capacity: usize,
        available: usize,
        bytes_allocated: usize,
        now: u64,
        opts: &HeapOptions,
    ) -> (r: bool)
        requires
            self.history.last_cycle_end <= now,
            max_capacity as int / 100 * opts.allocation_threshold <= usize::MAX,
            max_capacity as int / 100 * opts.min_free_threshold <= usize::MAX,
        ensures
            r == (available < max_capacity as int / 100 * opts.min_free_threshold
                || bytes_allocated > max_capacity as int / 100 * opts.allocation_threshold
                || interval_over(self.history, now, *opts)),
    {
        let threshold_bytes_allocated: usize = max_capacity / 100 * opts.allocation_threshold;
        let min_threshold: usize = max_capacity / 100 * opts.min_free_threshold;
        if available < min_threshold {
            return true;
        }
        if bytes_allocated > threshold_bytes_allocated {
            return true;
        }
        self.history.should_start_gc(now, opts)
    }
}

} // verus!
