//! Cycles are started so that they end before the free memory does, as far as the
//! allocation rate and the times of former cycles let one tell.

use vstd::prelude::*;

use super::{interval_over, CycleHistory};
use crate::heap::region::HeapOptions;

verus! {

/// What the last cycle was started for.
#[derive(Clone, Copy, PartialEq, Eq, PartialOrd, Ord, Debug, Structural)]
pub enum Trigger {
    Spike,
    Rate,
    Other,
}

/// What is adjusted after a cycle.
#[derive(Clone, Copy, PartialEq, Eq, Debug, Structural)]
pub enum Adjusted {
    MarginOfError,
    SpikeThreshold,
    Nothing,
}

/// The last sample of the allocated bytes.
#[derive(Clone, Copy, PartialEq, Eq, Debug, Structural)]
pub struct AllocationRate {
    pub last_sample_time: u64,
    pub last_sample_value: usize,
    pub interval: u64,
}

/// A sample that goes into the rate: what was allocated, and in what time.
#[derive(Clone, Copy, PartialEq, Eq, Debug, Structural)]
pub struct Sample {
    pub allocated: usize,
    pub time: u64,
}

impl AllocationRate {
    pub fn new(interval: u64, now: u64) -> (r: Self)
        ensures
            r == (AllocationRate { last_sample_time: now, last_sample_value: 0, interval }),
    {
        AllocationRate { last_sample_time: now, last_sample_value: 0, interval }
    }

    /// Takes a sample if it is time for one. A sample that is below the last one does not
    /// count.
    pub fn sample(&mut self, allocated: usize, now: u64) -> (r: Option<Sample>)
        requires
            old(self).last_sample_time <= now,
        ensures
            ({
                let due = now - old(self).last_sample_time > old(self).interval;
                &&& r == if due && allocated >= old(self).last_sample_value {
                    Some(
                        Sample {
                            allocated: (allocated - old(self).last_sample_value) as usize,
                            time: (now - old(self).last_sample_time) as u64,
                        },
                    )
                } else {
                    None
                }
                &&& *final(self) == if due {
                    AllocationRate {
                        last_sample_time: now,
                        last_sample_value: allocated,
                        ..*old(self)
                    }
                } else {
                    *old(self)
                }
            }),
    {
        let mut rate: Option<Sample> = None;
        if now - self.last_sample_time > self.interval {
            if allocated >= self.last_sample_value {
                rate = Some(self.allocation_since(allocated, now));
            }
            self.last_sample_time = now;
            self.last_sample_value = allocated;
        }
        rate
    }

    /// What has been allocated since the last sample.
    pub fn allocation_since(&self, allocated: usize, now: u64) -> (r: Sample)
        requires
            self.last_sample_time <= now,
        ensures
            r.allocated == if allocated > self.last_sample_value {
                allocated - self.last_sample_value
            } else {
                0
            },
            r.time == now - self.last_sample_time,
    {
        Sample {
            allocated: if allocated > self.last_sample_value {
                allocated - self.last_sample_value
            } else {
                0
            },
            time: now - self.last_sample_time,
        }
    }

    pub fn allocation_counter_reset(&mut self, now: u64)
        ensures
            *final(self) == (AllocationRate {
                last_sample_time: now,
                last_sample_value: 0,
                ..*old(self)
            }),
    {
        self.last_sample_time = now;
        self.last_sample_value = 0;
    }
}

/// Starts cycles by what is expected of them.
#[derive(Clone, Copy, PartialEq, Eq, Debug, Structural)]
pub struct AdaptiveHeuristics {
    pub history: CycleHistory,
    pub allocation_rate: AllocationRate,
    pub last_trigger: Trigger,
}

/// What is known of the heap when it is decided whether to start a cycle. `too_slow` says
/// whether an average cycle is expected to take longer than the headroom lasts at the
/// average rate. `spiking` says whether the rate is far above the average, and a cycle is
/// expected to take longer than the headroom lasts at this rate.
#[derive(Clone, Copy, PartialEq, Eq, Debug, Structural)]
pub struct AdaptiveFacts {
    pub max_capacity: usize,
    pub available: usize,
    pub too_slow: bool,
    pub spiking: bool,
}

/// `n` without as much of `m` as there is.
pub open spec fn reduced(n: int, m: int) -> int {
    if m < n {
        n - m
    } else {
        0
    }
}

/// What is free once there is enough for a spike and for the penalties.
pub open spec fn headroom_of(
    available: int,
    max_capacity: int,
    penalties: int,
    opts: HeapOptions,
) -> int {
    reduced(
        reduced(available, max_capacity / 100 * opts.alloc_spike_factor),
        max_capacity / 100 * penalties,
    )
}

/// What a cycle is started for, if it is.
pub open spec fn adaptive_trigger(
    h: CycleHistory,
    facts: AdaptiveFacts,
    now: u64,
    opts: HeapOptions,
) -> Option<Trigger> {
    let share = facts.max_capacity as int / 100;
    if facts.available < share * opts.min_free_threshold {
        Some(Trigger::Other)
    } else if h.gc_times_learned < opts.learning_steps && facts.available < share
        * opts.init_free_threshold {
        Some(Trigger::Other)
    } else if facts.too_slow {
        Some(Trigger::Rate)
    } else if facts.spiking {
        Some(Trigger::Spike)
    } else if interval_over(h, now, opts) {
        Some(Trigger::Other)
    } else {
        None
    }
}

/// Whether shares of the heap can be computed.
pub open spec fn shares_fit(max_capacity: int, opts: HeapOptions) -> bool {
    let share = max_capacity / 100;
    &&& share * opts.min_free_threshold <= usize::MAX
    &&& share * opts.init_free_threshold <= usize::MAX
    &&& share * opts.alloc_spike_factor <= usize::MAX
    &&& share * 100 <= usize::MAX
}

impl AdaptiveHeuristics {
    pub fn new(sample_interval: u64, now: u64) -> (r: Self)
        ensures
            r.history.wf(),
            r.history.gc_times_learned == 0,
            r.history.gc_time_penalties == 0,
            r.history.cycle_start == now,
            r.history.last_cycle_end == now,
            r.history.degenerated_cycles_in_a_row == 0,
            r.history.successful_cycles_in_a_row == 0,
            r.allocation_rate == (AllocationRate {
                last_sample_time: now,
                last_sample_value: 0,
                interval: sample_interval,
            }),
            r.last_trigger == Trigger::Other,
    {
        AdaptiveHeuristics {
            history: CycleHistory::new(now),
            allocation_rate: AllocationRate::new(sample_interval, now),
            last_trigger: Trigger::Other,
        }
    }

    /// What is free once there is enough for a spike and for the penalties.
    pub fn headroom(&self, available: usize, max_capacity: usize, opts: &HeapOptions) -> (r: usize)
        requires
            self.history.wf(),
            shares_fit(max_capacity as int, *opts),
        ensures
            r == headroom_of(
                available as int,
                max_capacity as int,
                self.history.gc_time_penalties as int,
                *opts,
            ),
    {
        let share: usize = max_capacity / 100;
        let p: usize = self.history.gc_time_penalties as usize;
        proof {
            assert(share * p <= share * 100) by (nonlinear_arith)
                requires
                    p <= 100,
            ;
        }
        let spike_headroom: usize = share * opts.alloc_spike_factor;
        let penalties: usize = share * p;
        let mut room: usize = available;
        room = if spike_headroom < room {
            room - spike_headroom
        } else {
            0
        };
        if penalties < room {
            room - penalties
        } else {
            0
        }
    }

    /// Whether a cycle is due.
    pub fn should_start_gc(&mut self, facts: &AdaptiveFacts, now: u64, opts: &HeapOptions) -> (r:
        bool)
        requires
            old(self).history.last_cycle_end <= now,
            shares_fit(facts.max_capacity as int, *opts),
        ensures
            ({
                let t = adaptive_trigger(old(self).history, *facts, now, *opts);
                &&& r == (t is Some)
                &&& *final(self) == (AdaptiveHeuristics {
                    last_trigger: match t {
                        Some(t) => t,
                        None => Trigger::Other,
                    },
                    ..*old(self)
                })
            }),
    {
        self.last_trigger = Trigger::Other;
        let share: usize = facts.max_capacity / 100;
        if facts.available < share * opts.min_free_threshold {
            return true;
        }
        if self.history.gc_times_learned < opts.learning_steps {
            if facts.available < share * opts.init_free_threshold {
                return true;
            }
        }
        if facts.too_slow {
            self.last_trigger = Trigger::Rate;
            return true;
        }
        if facts.spiking {
            self.last_trigger = Trigger::Spike;
            return true;
        }
        self.history.should_start_gc(now, opts)
    }

    /// What is adjusted after a cycle: what made it start.
    pub fn last_trigger_parameter(&self) -> (r: Adjusted)
        ensures
            r == match self.last_trigger {
                Trigger::Rate => Adjusted::MarginOfError,
                Trigger::Spike => Adjusted::SpikeThreshold,
                Trigger::Other => Adjusted::Nothing,
            },
    {
        match self.last_trigger {
            Trigger::Rate => Adjusted::MarginOfError,
            Trigger::Spike => Adjusted::SpikeThreshold,
            Trigger::Other => Adjusted::Nothing,
        }
    }

    /// Notes that a cycle starts.
    pub fn record_cycle_start(&mut self, now: u64)
        ensures
            *final(self) == (AdaptiveHeuristics {
                history: CycleHistory { cycle_start: now, ..old(self).history },
                allocation_rate: AllocationRate {
                    last_sample_time: now,
                    last_sample_value: 0,
                    ..old(self).allocation_rate
                },
                ..*old(self)
            }),
    {
        self.history.record_cycle_start(now);
        self.allocation_rate.allocation_counter_reset(now);
    }
}

/// A heap that is almost full always starts a cycle, whatever is expected.
pub proof fn lemma_low_memory_triggers(
    h: CycleHistory,
    facts: AdaptiveFacts,
    now: u64,
    opts: HeapOptions,
)
    requires
        facts.available < facts.max_capacity as int / 100 * opts.min_free_threshold,
    ensures
        adaptive_trigger(h, facts, now, opts) == Some(Trigger::Other),
{
}

/// The less memory there is, the sooner a cycle starts: what starts one with some memory
/// available starts one with less. Without a forecast against it, none starts while there is
/// as much as the larger threshold, until the interval is over.
pub proof fn lemma_less_memory_triggers(
    h: CycleHistory,
    facts: AdaptiveFacts,
    fewer: AdaptiveFacts,
    now: u64,
    opts: HeapOptions,
)
    requires
        fewer == (AdaptiveFacts { available: fewer.available, ..facts }),
        fewer.available <= facts.available,
    ensures
        adaptive_trigger(h, facts, now, opts) is Some ==> adaptive_trigger(
            h,
            fewer,
            now,
            opts,
        ) is Some,
        !facts.too_slow && !facts.spiking && !interval_over(h, now, opts) && facts.max_capacity as int
            / 100 * opts.min_free_threshold <= facts.available && facts.max_capacity as int / 100
            * opts.init_free_threshold <= facts.available ==> adaptive_trigger(
            h,
            facts,
            now,
            opts,
        ) is None,
        facts.too_slow || facts.spiking || interval_over(h, now, opts) ==> adaptive_trigger(
            h,
            facts,
            now,
            opts,
        ) is Some,
{
}

/// The headroom is what is available without the two reserves: nothing if they take all of
/// it, and never more is left out than they are.
pub proof fn lemma_headroom(
    available: int,
    more: int,
    max_capacity: int,
    penalties: int,
    opts: HeapOptions,
)
    requires
        0 <= available <= more,
        0 <= max_capacity,
        0 <= penalties,
    ensures
        ({
            let room = headroom_of(available, max_capacity, penalties, opts);
            let kept = max_capacity / 100 * opts.alloc_spike_factor + max_capacity / 100 * penalties;
            &&& 0 <= room <= available
            &&& kept <= available ==> room + kept == available
            &&& available <= kept ==> room == 0
            &&& room <= headroom_of(more, max_capacity, penalties, opts)
        }),
{
    let share = max_capacity / 100;
    assert(0 <= share * opts.alloc_spike_factor && 0 <= share * penalties) by (nonlinear_arith)
        requires
            0 <= share,
            0 <= penalties,
            0 <= opts.alloc_spike_factor,
    ;
}

} // verus!
