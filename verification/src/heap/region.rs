//! Regions of the heap, and the sizes that are derived from its arguments.

use vstd::arithmetic::power2::{lemma_pow2_strictly_increases, pow2};
use vstd::prelude::*;

use super::bitmap::{rounded_up, HeapBitmap};
use super::free_list::{
    all_bytes, apart, apart_from_all, biggest_with, bucket_of, decisive_bucket, entries_apart, has_entry,
    lemma_apart_add, lemma_apart_take, lemma_decisive_bucket, lists_with, servable_in, Entry,
    FreeList, ENTRY_SIZE,
};
use super::{align_down, align_usize, lemma_log2_floor, lemma_log2_unique, log2_floor, GCHeuristic};
use crate::bits::is_power_of_two;

verus! {

#[derive(Clone, Copy, PartialEq, Eq, PartialOrd, Ord, Debug, Structural)]
pub enum RegionState {
    Regular,
    HumongousStart,
    HumongousCont,
    EmptyUncommited,
    EmptyCommited,
    Trash,
}

/// What has to be done to the memory behind the heap.
#[derive(Clone, Copy, PartialEq, Eq, Debug, Structural)]
pub enum VmAction {
    /// Back the range with memory.
    Commit { start: usize, size: usize },
    /// Give the memory behind the range back.
    Decommit { start: usize, size: usize },
}

/// Counters that belong to the heap as a whole, and the requests to the memory
/// behind it that have come up, in order.
pub struct HeapCounters {
    pub used: usize,
    pub commited: usize,
    pub bytes_allocated_since_gc_start: usize,
    pub actions: Vec<VmAction>,
}

/// The tunable parameters of a heap.
#[derive(Clone, Copy, PartialEq, Eq, Debug, Structural)]
pub struct HeapArguments {
    /// With automatic region sizing, the regions would be at most
    /// this large.
    pub max_region_size: usize,
    /// With automatic region sizing, the regions would be at least
    /// this large.
    pub min_region_size: usize,
    /// With automatic region sizing, this is the approximate number
    /// of regions that would be used, within min/max region size
    /// limits.
    pub target_num_regions: usize,
    /// Humongous objects are allocated in separate regions.
    /// This setting defines how large the object should be to be
    /// deemed humongous. Value is in  percents of heap region size.
    /// This also caps the maximum TLAB size.
    pub humongous_threshold: usize,
    /// Static heap region size. Set zero to enable automatic sizing.
    pub region_size: usize,
    pub elastic_tlab: bool,
    pub min_tlab_size: usize,
    pub tlab_size: usize,
    pub tlab_waste_target_percent: usize,
    pub tlab_refill_waste_fraction: usize,
    pub tlab_waste_increment: usize,
    pub max_heap_size: usize,
    pub min_heap_size: usize,
    pub initial_heap_size: usize,
    pub min_free_threshold: usize,
    pub allocation_threshold: usize,
    pub guaranteed_gc_interval: usize,
    pub control_interval_min: usize,
    pub control_interval_max: usize,
    pub control_interval_adjust_period: usize,
    pub uncommit: bool,
    pub uncommit_delay: usize,
    /// How many regions to process at once during parallel region
    /// iteration. Affects heaps with lots of regions.
    pub parallel_region_stride: usize,
    pub parallel_gc_threads: usize,
    pub parallel_mark: bool,
    pub parallel_sweep: bool,
    pub mark_loop_stride: usize,
    pub max_satb_buffer_flushes: usize,
    pub max_satb_buffer_size: usize,
    pub full_gc_threshold: usize,
    /// Always do full GC cycle.
    pub always_full: bool,
    pub learning_steps: usize,
    pub immediate_threshold: usize,
    pub adaptive_sample_frequency_hz: usize,
    pub adaptive_sample_frequency_size_seconds: usize,
    pub alloc_spike_factor: usize,
    /// When to start the GC, how much to process on each cycle, and what other
    /// features to automatically enable.
    pub heuristics: GCHeuristic,
    pub init_free_threshold: usize,
    /// Pace application allocations to give GC chance to start
    /// and complete before allocation failure is reached.
    pub pacing: bool,
    /// Max delay for pacing application allocations, in milliseconds.
    pub pacing_max_delay: usize,
    /// How much of free space to take as non-taxable allocations the GC cycle,
    /// in percent of free space.
    pub pacing_cycle_slack: usize,
    pub pacing_idle_slack: usize,
    pub parallel_root_mark_tasks: bool,
}

/// The settings that can be given as a number from outside.
#[derive(Clone, Copy, PartialEq, Eq, Debug, Structural)]
pub enum Setting {
    MinRegionSize,
    MaxRegionSize,
    RegionSize,
    ElasticTlab,
    TargetNumRegions,
    HumongousThreshold,
    MinTlabSize,
    TlabSize,
    TlabWasteTargetPercent,
    TlabRefillWasteFraction,
    TlabWasteIncrement,
    MaxHeapSize,
    InitialHeapSize,
    MinHeapSize,
    MinFreeThreshold,
    AllocationThreshold,
    GuaranteedGcInterval,
    ControlIntervalMin,
    ControlIntervalMax,
    ControlIntervalAdjustPeriod,
    Uncommit,
    UncommitDelay,
    ParallelRegionStride,
    ParallelThreads,
    ParallelMark,
    ParallelSweep,
    MarkLoopStride,
    MaxSatbBufferFlushes,
    MaxSatbBufferSize,
    FullGcThreshold,
    AlwaysFull,
    ParallelRootMarks,
    LearningSteps,
}

impl HeapArguments {
    /// The arguments with one setting changed. Switches are on for any number
    /// but zero, and there is at least one learning step.
    pub open spec fn with(self, setting: Setting, x: usize) -> HeapArguments {
        match setting {
            Setting::MinRegionSize => HeapArguments { min_region_size: x, ..self },
            Setting::MaxRegionSize => HeapArguments { max_region_size: x, ..self },
            Setting::RegionSize => HeapArguments { region_size: x, ..self },
            Setting::ElasticTlab => HeapArguments { elastic_tlab: x > 0, ..self },
            Setting::TargetNumRegions => HeapArguments { target_num_regions: x, ..self },
            Setting::HumongousThreshold => HeapArguments { humongous_threshold: x, ..self },
            Setting::MinTlabSize => HeapArguments { min_tlab_size: x, ..self },
            Setting::TlabSize => HeapArguments { tlab_size: x, ..self },
            Setting::TlabWasteTargetPercent => HeapArguments {
                tlab_waste_target_percent: x,
                ..self
            },
            Setting::TlabRefillWasteFraction => HeapArguments {
                tlab_refill_waste_fraction: x,
                ..self
            },
            Setting::TlabWasteIncrement => HeapArguments { tlab_waste_increment: x, ..self },
            Setting::MaxHeapSize => HeapArguments { max_heap_size: x, ..self },
            Setting::InitialHeapSize => HeapArguments { initial_heap_size: x, ..self },
            Setting::MinHeapSize => HeapArguments { min_heap_size: x, ..self },
            Setting::MinFreeThreshold => HeapArguments { min_free_threshold: x, ..self },
            Setting::AllocationThreshold => HeapArguments { allocation_threshold: x, ..self },
            Setting::GuaranteedGcInterval => HeapArguments { guaranteed_gc_interval: x, ..self },
            Setting::ControlIntervalMin => HeapArguments { control_interval_min: x, ..self },
            Setting::ControlIntervalMax => HeapArguments { control_interval_max: x, ..self },
            Setting::ControlIntervalAdjustPeriod => HeapArguments {
                control_interval_adjust_period: x,
                ..self
            },
            Setting::Uncommit => HeapArguments { uncommit: x > 0, ..self },
            Setting::UncommitDelay => HeapArguments { uncommit_delay: x, ..self },
            Setting::ParallelRegionStride => HeapArguments { parallel_region_stride: x, ..self },
            Setting::ParallelThreads => HeapArguments { parallel_gc_threads: x, ..self },
            Setting::ParallelMark => HeapArguments { parallel_mark: x > 0, ..self },
            Setting::ParallelSweep => HeapArguments { parallel_sweep: x > 0, ..self },
            Setting::MarkLoopStride => HeapArguments { mark_loop_stride: x, ..self },
            Setting::MaxSatbBufferFlushes => HeapArguments { max_satb_buffer_flushes: x, ..self },
            Setting::MaxSatbBufferSize => HeapArguments { max_satb_buffer_size: x, ..self },
            Setting::FullGcThreshold => HeapArguments { full_gc_threshold: x, ..self },
            Setting::AlwaysFull => HeapArguments { always_full: x > 0, ..self },
            Setting::ParallelRootMarks => HeapArguments { parallel_root_mark_tasks: x != 0, ..self },
            Setting::LearningSteps => HeapArguments {
                learning_steps: if x == 0 {
                    1
                } else {
                    x
                },
                ..self
            },
        }
    }

    /// The arguments with the first `n` of the given settings changed, in order.
    pub open spec fn with_all(self, settings: Seq<(Setting, usize)>, n: int) -> HeapArguments
        decreases n,
    {
        if n <= 0 {
            self
        } else {
            self.with_all(settings, n - 1).with(settings[n - 1].0, settings[n - 1].1)
        }
    }

    /// The arguments that a machine with the given page size and number of
    /// processors starts from.
    pub open spec fn defaults(page_size: usize, processors: usize) -> HeapArguments {
        HeapArguments {
            parallel_root_mark_tasks: true,
            always_full: false,
            min_region_size: page_size,
            max_region_size: 33_554_432,
            target_num_regions: 2048,
            humongous_threshold: 100,
            region_size: 0,
            elastic_tlab: false,
            min_free_threshold: 10,
            allocation_threshold: 0,
            guaranteed_gc_interval: 300_000,
            uncommit: true,
            uncommit_delay: 300_000,
            control_interval_min: 1,
            control_interval_max: 10,
            control_interval_adjust_period: 1000,
            min_tlab_size: 2048,
            max_heap_size: 100_663_296,
            min_heap_size: 0,
            initial_heap_size: 0,
            parallel_mark: true,
            parallel_sweep: true,
            mark_loop_stride: 1000,
            tlab_refill_waste_fraction: 64,
            tlab_size: 0,
            tlab_waste_increment: 4,
            tlab_waste_target_percent: 1,
            parallel_region_stride: 1024,
            parallel_gc_threads: processors,
            max_satb_buffer_flushes: 5,
            max_satb_buffer_size: 1024,
            full_gc_threshold: 3,
            adaptive_sample_frequency_hz: 10,
            adaptive_sample_frequency_size_seconds: 10,
            alloc_spike_factor: 5,
            learning_steps: 5,
            immediate_threshold: 90,
            heuristics: GCHeuristic::Adaptive,
            init_free_threshold: 70,
            pacing: true,
            pacing_cycle_slack: 10,
            pacing_idle_slack: 2,
            pacing_max_delay: 10,
        }
    }

    /// The default arguments.
    pub fn default(page_size: usize, processors: usize) -> (r: Self)
        ensures
            r == Self::defaults(page_size, processors),
    {
        HeapArguments {
            parallel_root_mark_tasks: true,
            always_full: false,
            min_region_size: page_size,
            max_region_size: 32 * 1024 * 1024,
            target_num_regions: 2048,
            humongous_threshold: 100,
            region_size: 0,
            elastic_tlab: false,
            min_free_threshold: 10,
            allocation_threshold: 0,
            guaranteed_gc_interval: 5 * 60 * 1000,
            uncommit: true,
            uncommit_delay: 5 * 60 * 1000,
            control_interval_min: 1,
            control_interval_max: 10,
            control_interval_adjust_period: 1000,
            min_tlab_size: 2 * 1024,
            max_heap_size: 96 * 1024 * 1024,
            min_heap_size: 0,
            initial_heap_size: 0,
            parallel_mark: true,
            parallel_sweep: true,
            mark_loop_stride: 1000,
            tlab_refill_waste_fraction: 64,
            tlab_size: 0,
            tlab_waste_increment: 4,
            tlab_waste_target_percent: 1,
            parallel_region_stride: 1024,
            parallel_gc_threads: processors,
            max_satb_buffer_flushes: 5,
            max_satb_buffer_size: 1024,
            full_gc_threshold: 3,
            adaptive_sample_frequency_hz: 10,
            adaptive_sample_frequency_size_seconds: 10,
            alloc_spike_factor: 5,
            learning_steps: 5,
            immediate_threshold: 90,
            heuristics: GCHeuristic::Adaptive,
            init_free_threshold: 70,
            pacing: true,
            pacing_cycle_slack: 10,
            pacing_idle_slack: 2,
            pacing_max_delay: 10,
        }
    }

    /// Changes one setting.
    pub fn set(&mut self, setting: Setting, x: usize)
        ensures
            *final(self) == old(self).with(setting, x),
    {
        match setting {
            Setting::MinRegionSize => self.min_region_size = x,
            Setting::MaxRegionSize => self.max_region_size = x,
            Setting::RegionSize => self.region_size = x,
            Setting::ElasticTlab => self.elastic_tlab = x > 0,
            Setting::TargetNumRegions => self.target_num_regions = x,
            Setting::HumongousThreshold => self.humongous_threshold = x,
            Setting::MinTlabSize => self.min_tlab_size = x,
            Setting::TlabSize => self.tlab_size = x,
            Setting::TlabWasteTargetPercent => self.tlab_waste_target_percent = x,
            Setting::TlabRefillWasteFraction => self.tlab_refill_waste_fraction = x,
            Setting::TlabWasteIncrement => self.tlab_waste_increment = x,
            Setting::MaxHeapSize => self.max_heap_size = x,
            Setting::InitialHeapSize => self.initial_heap_size = x,
            Setting::MinHeapSize => self.min_heap_size = x,
            Setting::MinFreeThreshold => self.min_free_threshold = x,
            Setting::AllocationThreshold => self.allocation_threshold = x,
            Setting::GuaranteedGcInterval => self.guaranteed_gc_interval = x,
            Setting::ControlIntervalMin => self.control_interval_min = x,
            Setting::ControlIntervalMax => self.control_interval_max = x,
            Setting::ControlIntervalAdjustPeriod => self.control_interval_adjust_period = x,
            Setting::Uncommit => self.uncommit = x > 0,
            Setting::UncommitDelay => self.uncommit_delay = x,
            Setting::ParallelRegionStride => self.parallel_region_stride = x,
            Setting::ParallelThreads => self.parallel_gc_threads = x,
            Setting::ParallelMark => self.parallel_mark = x > 0,
            Setting::ParallelSweep => self.parallel_sweep = x > 0,
            Setting::MarkLoopStride => self.mark_loop_stride = x,
            Setting::MaxSatbBufferFlushes => self.max_satb_buffer_flushes = x,
            Setting::MaxSatbBufferSize => self.max_satb_buffer_size = x,
            Setting::FullGcThreshold => self.full_gc_threshold = x,
            Setting::AlwaysFull => self.always_full = x > 0,
            Setting::ParallelRootMarks => self.parallel_root_mark_tasks = x != 0,
            Setting::LearningSteps => if x == 0 {
                self.learning_steps = 1;
            } else {
                self.learning_steps = x;
            },
        }
    }

    /// The default arguments with the settings that were given from outside.
    /// Without a heuristic of its own the heap is adaptive.
    pub fn from_env(
        settings: &Vec<(Setting, usize)>,
        heuristics: Option<GCHeuristic>,
        page_size: usize,
        processors: usize,
    ) -> (r: Self)
        ensures
            r == (HeapArguments {
                heuristics: match heuristics {
                    Some(h) => h,
                    None => GCHeuristic::Adaptive,
                },
                ..Self::defaults(page_size, processors).with_all(
                    settings@,
                    settings@.len() as int,
                )
            }),
    {
        let mut this: HeapArguments = Self::default(page_size, processors);
        let mut i: usize = 0;
        while i < settings.len()
            invariant
                i <= settings@.len(),
                this == Self::defaults(page_size, processors).with_all(settings@, i as int),
            decreases settings@.len() - i,
        {
            let (setting, x): (Setting, usize) = settings[i];
            this.set(setting, x);
            i = i + 1;
        }
        this.heuristics = match heuristics {
            Some(h) => h,
            None => GCHeuristic::Adaptive,
        };
        this
    }

    /// The largest heap that is reasonable, given what the shares of the
    /// physical memory for the largest and for the smallest heap amount to.
    pub open spec fn reasonable_max(self, max_share: usize, min_share: usize) -> usize {
        let by_share = if min_share < self.max_heap_size {
            min_share
        } else if max_share > self.max_heap_size {
            max_share
        } else {
            self.max_heap_size
        };
        let floor = if self.initial_heap_size != 0 {
            self.initial_heap_size
        } else {
            self.min_heap_size
        };
        if floor > by_share {
            floor
        } else {
            by_share
        }
    }

    /// The heap sizes that are reasonable: the maximum is only chosen if it still
    /// is the default, the initial and the minimum size only if they are zero.
    pub open spec fn sized(
        self,
        max_share: usize,
        min_share: usize,
        initial_share: usize,
    ) -> HeapArguments {
        let max = if self.max_heap_size == 100_663_296 {
            self.reasonable_max(max_share, min_share)
        } else {
            self.max_heap_size
        };
        let minimum = if max < 5_242_880 {
            max
        } else {
            5_242_880
        };
        let wanted = if initial_share > minimum {
            initial_share
        } else {
            minimum
        };
        let wanted = if self.min_heap_size > wanted {
            self.min_heap_size
        } else {
            wanted
        };
        let initial = if wanted < max {
            wanted
        } else {
            max
        };
        HeapArguments {
            max_heap_size: max,
            initial_heap_size: if self.initial_heap_size == 0 {
                initial
            } else {
                self.initial_heap_size
            },
            min_heap_size: if self.min_heap_size == 0 {
                minimum
            } else {
                self.min_heap_size
            },
            ..self
        }
    }

    /// Chooses the heap sizes, given what the configured shares of the physical
    /// memory amount to.
    pub fn set_heap_size(&mut self, max_share: usize, min_share: usize, initial_share: usize)
        ensures
            *final(self) == old(self).sized(max_share, min_share, initial_share),
    {
        if self.max_heap_size == 96 * 1024 * 1024 {
            let mut reasonable_max: usize = max_share;
            if min_share < self.max_heap_size {
                reasonable_max = min_share;
            } else if self.max_heap_size > reasonable_max {
                reasonable_max = self.max_heap_size;
            }
            if self.initial_heap_size != 0 {
                if self.initial_heap_size > reasonable_max {
                    reasonable_max = self.initial_heap_size;
                }
            } else if self.min_heap_size != 0 {
                if self.min_heap_size > reasonable_max {
                    reasonable_max = self.min_heap_size;
                }
            }
            self.max_heap_size = reasonable_max;
        }
        if self.initial_heap_size == 0 || self.min_heap_size == 0 {
            let mut reasonable_minimum: usize = 5 * 1024 * 1024;
            if self.max_heap_size < reasonable_minimum {
                reasonable_minimum = self.max_heap_size;
            }
            if self.initial_heap_size == 0 {
                let mut reasonable_initial: usize = initial_share;
                if reasonable_minimum > reasonable_initial {
                    reasonable_initial = reasonable_minimum;
                }
                if self.min_heap_size > reasonable_initial {
                    reasonable_initial = self.min_heap_size;
                }
                if self.max_heap_size < reasonable_initial {
                    reasonable_initial = self.max_heap_size;
                }
                self.initial_heap_size = reasonable_initial;
            }
            if self.min_heap_size == 0 {
                self.min_heap_size = reasonable_minimum;
            }
        }
    }

    /// The smallest region that automatic sizing may choose.
    pub open spec fn smallest_region(self) -> int {
        if self.min_region_size < 4096 {
            4096
        } else {
            self.min_region_size as int
        }
    }

    /// The region size before it is rounded.
    pub open spec fn region_size_wanted(self) -> int {
        if self.region_size != 0 {
            self.region_size as int
        } else {
            let count = if self.target_num_regions == 0 {
                2048
            } else {
                self.target_num_regions as int
            };
            let largest = if self.max_region_size == 0 || self.max_region_size
                < self.min_region_size {
                33_554_432
            } else {
                self.max_region_size as int
            };
            let by_count = self.max_heap_size as int / count;
            let wanted = if by_count < self.smallest_region() {
                self.smallest_region()
            } else {
                by_count
            };
            if largest < wanted {
                largest
            } else {
                wanted
            }
        }
    }

    /// The region size rounded up to whole pages.
    pub open spec fn region_pages(self, page_size: int) -> int {
        rounded_up(self.region_size_wanted(), page_size)
    }

    /// The exponent of the region size.
    pub open spec fn region_log2(self, page_size: int) -> nat {
        log2_floor(self.region_pages(page_size))
    }

    /// The heap size, rounded up to whole regions.
    pub open spec fn heap_size(self, page_size: int) -> int {
        rounded_up(
            rounded_up(self.max_heap_size as int, self.region_pages(page_size)),
            pow2(self.region_log2(page_size)) as int,
        )
    }

    /// The share of a region, in percent, above which an object is humongous.
    pub open spec fn humongous_percent(self) -> int {
        if self.humongous_threshold == 0 {
            100
        } else {
            self.humongous_threshold as int
        }
    }

    /// The largest number of words of an object that is not humongous.
    pub open spec fn humongous_words(self, page_size: int) -> int {
        let words = pow2(self.region_log2(page_size)) as int / 8 * self.humongous_percent() / 100;
        words - words % 8
    }

    /// The arguments from which sizes can be derived: the heap is large enough
    /// for ten regions, a page is not smaller than a word, the divisors are not
    /// zero and the sizes leave room in the address space.
    pub open spec fn sizeable(self, page_size: int) -> bool {
        &&& page_size >= 8
        &&& self.smallest_region() <= self.max_heap_size as int / 10
        &&& self.tlab_waste_target_percent > 0
        &&& 2 * self.tlab_waste_target_percent <= usize::MAX
        &&& self.region_size_wanted() + page_size <= usize::MAX
        &&& self.max_heap_size + self.region_pages(page_size) <= usize::MAX
        &&& rounded_up(self.max_heap_size as int, self.region_pages(page_size)) + pow2(
            self.region_log2(page_size),
        ) <= usize::MAX
        &&& pow2(self.region_log2(page_size)) as int / 8 * self.humongous_percent() <= usize::MAX
        &&& self.humongous_words(page_size) * 8 <= usize::MAX
        &&& self.parallel_region_stride == 1024 ==> self.parallel_gc_threads != 0
    }
}

/// The sizes and thresholds of a heap.
#[derive(Clone, Copy, PartialEq, Eq, Debug, Structural)]
pub struct HeapOptions {
    pub region_size_bytes: usize,
    pub region_size_words: usize,
    pub region_size_bytes_shift: usize,
    pub region_size_bytes_mask: usize,
    pub region_size_words_shift: usize,
    pub region_size_words_mask: usize,
    pub region_payload_size_bytes: usize,
    pub region_payload_size_words: usize,
    pub region_count: usize,
    pub humongous_threshold_words: usize,
    pub humongous_threshold_bytes: usize,
    pub max_heap_size: usize,
    pub max_tlab_size: usize,
    pub tlab_size: usize,
    pub min_tlab_size: usize,
    pub region_size_log2: usize,
    pub elastic_tlab: bool,
    pub min_free_threshold: usize,
    pub allocation_threshold: usize,
    pub guaranteed_gc_interval: usize,
    pub control_interval_min: usize,
    pub control_interval_max: usize,
    pub control_interval_adjust_period: usize,
    pub uncommit: bool,
    pub uncommit_delay: usize,
    pub target_refills: usize,
    pub parallel_gc_threads: usize,
    pub parallel_region_stride: usize,
    pub parallel_mark: bool,
    pub parallel_sweep: bool,
    pub mark_loop_stride: usize,
    pub max_satb_buffer_flushes: usize,
    pub max_satb_buffer_size: usize,
    pub full_gc_threshold: usize,
    pub always_full: bool,
    pub learning_steps: usize,
    pub immediate_threshold: usize,
    pub adaptive_sample_frequency_hz: usize,
    pub adaptive_sample_frequency_size_seconds: usize,
    pub alloc_spike_factor: usize,
    pub init_free_threshold: usize,
    pub pacing: bool,
    pub pacing_max_delay: usize,
    pub pacing_cycle_slack: usize,
    pub pacing_idle_slack: usize,
    pub parallel_root_mark_tasks: bool,
}

impl HeapOptions {
    /// The region size is the power of two that the other sizes speak of.
    pub open spec fn wf(&self) -> bool {
        &&& self.region_size_bytes == pow2(self.region_size_bytes_shift as nat)
        &&& self.region_size_log2 == self.region_size_bytes_shift
        &&& self.region_size_bytes_mask == self.region_size_bytes - 1
        &&& self.region_size_bytes_shift < usize::BITS
    }

    /// The number of regions that `size` bytes take.
    pub fn required_regions(&self, size: usize) -> (r: usize)
        requires
            self.wf(),
            size + self.region_size_bytes <= usize::MAX,
        ensures
            r == (size + self.region_size_bytes - 1) / self.region_size_bytes as int,
            (r - 1) * self.region_size_bytes < size <= r * self.region_size_bytes,
    {
        proof {
            vstd::arithmetic::power2::lemma_pow2_pos(self.region_size_bytes_shift as nat);
            lemma_least_count(size as int, self.region_size_bytes as int);
            vstd::bits::lemma_usize_shr_is_div(
                (size + self.region_size_bytes - 1) as usize,
                self.region_size_bytes_shift,
            );
        }
        (size + self.region_size_bytes - 1) >> self.region_size_bytes_shift
    }
}

/// What the sizes of a heap satisfy. The wanted region size is the one that was asked for, or
/// lies between the bounds and is the share of the heap that a region has, if that does. It is
/// rounded up to whole pages and then down to a power of two; the heap is rounded up to whole
/// regions; and the humongous threshold is the given share of a region, rounded down to eight
/// words.
pub proof fn lemma_region_sizes(args: HeapArguments, page_size: int)
    requires
        args.sizeable(page_size),
    ensures
        ({
            let wanted = args.region_size_wanted();
            let pages = args.region_pages(page_size);
            let region = pow2(args.region_log2(page_size)) as int;
            let heap = args.heap_size(page_size);
            let words = args.humongous_words(page_size);
            &&& args.region_size != 0 ==> wanted == args.region_size
            &&& args.region_size == 0 && args.smallest_region() <= args.max_region_size
                && args.min_region_size <= args.max_region_size ==> args.smallest_region() <= wanted
                <= args.max_region_size
            &&& args.region_size == 0 && args.max_region_size == 0 ==> wanted <= 33_554_432
            &&& args.region_size == 0 && args.target_num_regions > 0 && args.smallest_region()
                <= args.max_heap_size as int / args.target_num_regions as int
                <= args.max_region_size && args.min_region_size <= args.max_region_size ==> wanted
                == args.max_heap_size as int / args.target_num_regions as int
            &&& wanted <= pages < wanted + page_size
            &&& pages % page_size == 0
            &&& region <= pages < 2 * region
            &&& args.max_heap_size <= heap < args.max_heap_size + pages + region
            &&& heap % region == 0
            &&& words % 8 == 0
            &&& 100 * words <= region / 8 * args.humongous_percent() < 100 * (words + 8)
        }),
{
    let wanted = args.region_size_wanted();
    let pages = args.region_pages(page_size);
    let region = pow2(args.region_log2(page_size)) as int;
    assert(args.smallest_region() > 0);
    assert(wanted > 0);
    lemma_rounded_up(wanted, page_size);
    lemma_log2_floor(pages);
    vstd::arithmetic::power2::lemma_pow2_unfold(args.region_log2(page_size) + 1);
    vstd::arithmetic::power2::lemma_pow2_pos(args.region_log2(page_size));
    lemma_rounded_up(args.max_heap_size as int, pages);
    lemma_rounded_up(rounded_up(args.max_heap_size as int, pages), region);
}

/// Dividing and rounding up gives the least number of units that `size` fits in.
pub proof fn lemma_least_count(size: int, unit: int)
    requires
        0 <= size,
        0 < unit,
    ensures
        ({
            let n = (size + unit - 1) / unit;
            (n - 1) * unit < size <= n * unit
        }),
{
    let m = size + unit - 1;
    let n = m / unit;
    vstd::arithmetic::div_mod::lemma_fundamental_div_mod(m, unit);
    assert((n - 1) * unit == unit * n - unit && n * unit == unit * n) by (nonlinear_arith);
}

/// The base-two logarithm, rounded down.
pub fn log2_floor_of(n: usize) -> (r: usize)
    requires
        n >= 1,
    ensures
        r == log2_floor(n as int),
        r < usize::BITS,
{
    let mut m: usize = n;
    let mut k: usize = 0;
    proof {
        lemma_log2_floor(n as int);
        vstd::arithmetic::power2::lemma2_to64();
        vstd::arithmetic::power2::lemma2_to64_rest();
        if log2_floor(n as int) >= usize::BITS {
            if log2_floor(n as int) > usize::BITS {
                lemma_pow2_strictly_increases(usize::BITS as nat, log2_floor(n as int));
            }
        }
    }
    while m > 1
        invariant
            m >= 1,
            k + log2_floor(m as int) == log2_floor(n as int),
            log2_floor(n as int) < usize::BITS,
        decreases m,
    {
        m = m / 2;
        k = k + 1;
    }
    k
}

/// HeapRegion is a header for a region of memory that is used for allocation.
///
/// It is stored in side-table instead of being stored in the region itself.
///
/// # Region types
///
/// ## Regular
///
/// Regular region is a free-list region, this means allocation in it can happen
/// only from free-list.
///
/// ## Humongous
///
/// Humongous region is used for large objects, there might be object larger than
/// region, then there is a few contiguous regions after first humongous region.
///
/// ## Empty
///
/// Empty unallocated region.
pub struct HeapRegion {
    pub typ: RegionState,
    pub index: usize,
    pub used: usize,
    pub visited: bool,
    pub object_start_bitmap: HeapBitmap<16>,
    /// Start of region memory
    pub begin: usize,
    /// End of region memory
    pub end: usize,
    pub free_list: FreeList,
    pub largest_free_list_entry: usize,
    pub last_sweep_free: usize,
    /// When the region became empty.
    pub empty_time: u64,
    pub to_sweep: bool,
}

/// Whether every free entry lies between two addresses.
pub open spec fn entries_within(lists: Seq<Seq<Entry>>, begin: int, end: int) -> bool {
    forall|i: int, j: int|
        has_entry(lists, i, j) ==> begin <= (#[trigger] lists[i][j]).addr && lists[i][j].addr
            + lists[i][j].size <= end
}

/// Whether there are no free entries.
pub open spec fn no_entries(lists: Seq<Seq<Entry>>) -> bool {
    forall|i: int| 0 <= i < lists.len() ==> #[trigger] lists[i] == Seq::<Entry>::empty()
}

/// Whether the byte at `x` lies in a free entry.
pub open spec fn in_entries(lists: Seq<Seq<Entry>>, x: int) -> bool {
    exists|i: int, j: int|
        has_entry(lists, i, j) && (#[trigger] lists[i][j]).addr <= x < lists[i][j].addr
            + lists[i][j].size
}

/// An entry that is added adds its bytes.
proof fn lemma_bytes_added(lists: Seq<Seq<Entry>>, addr: usize, size: usize)
    requires
        size >= ENTRY_SIZE ==> 0 <= bucket_of(size) < lists.len(),
    ensures
        forall|x: int| #[trigger]
            in_entries(lists_with(lists, addr, size), x) <==> in_entries(lists, x) || (size
                >= ENTRY_SIZE && addr <= x < addr + size),
{
    let next = lists_with(lists, addr, size);
    if size >= ENTRY_SIZE {
        let b = bucket_of(size);
        assert(has_entry(next, b, lists[b].len() as int));
        assert(next[b][lists[b].len() as int] == (Entry { addr, size }));
        assert forall|x: int| #[trigger] in_entries(next, x) <==> in_entries(lists, x) || addr <= x
            < addr + size by {
            if in_entries(lists, x) {
                let (i, j) = choose|i: int, j: int|
                    has_entry(lists, i, j) && (#[trigger] lists[i][j]).addr <= x
                        < lists[i][j].addr + lists[i][j].size;
                assert(has_entry(next, i, j) && next[i][j] == lists[i][j]);
            }
            if in_entries(next, x) && !(addr <= x < addr + size) {
                let (i, j) = choose|i: int, j: int|
                    has_entry(next, i, j) && (#[trigger] next[i][j]).addr <= x < next[i][j].addr
                        + next[i][j].size;
                assert(has_entry(lists, i, j) && lists[i][j] == next[i][j]);
            }
        }
    }
}

/// An entry that is taken takes its bytes, and those of no other entry.
proof fn lemma_bytes_taken(lists: Seq<Seq<Entry>>, index: int)
    requires
        entries_apart(lists),
        0 <= index < lists.len(),
        lists[index].len() > 0,
    ensures
        ({
            let e = lists[index].last();
            let taken = lists.update(index, lists[index].drop_last());
            &&& forall|x: int| #[trigger]
                in_entries(taken, x) <==> in_entries(lists, x) && !(e.addr <= x < e.addr + e.size)
            &&& forall|x: int|
                e.addr <= x < e.addr + e.size ==> #[trigger] in_entries(lists, x)
        }),
{
    let e = lists[index].last();
    let taken = lists.update(index, lists[index].drop_last());
    let k = lists[index].len() - 1;
    assert(has_entry(lists, index, k) && lists[index][k] == e);
    assert forall|x: int| #[trigger] in_entries(taken, x) <==> in_entries(lists, x) && !(e.addr
        <= x < e.addr + e.size) by {
        if in_entries(taken, x) {
            let (i, j) = choose|i: int, j: int|
                has_entry(taken, i, j) && (#[trigger] taken[i][j]).addr <= x < taken[i][j].addr
                    + taken[i][j].size;
            assert(has_entry(lists, i, j) && lists[i][j] == taken[i][j]);
            assert(i != index || j != k);
            assert(apart(
                lists[i][j].addr as int,
                lists[i][j].size as int,
                lists[index][k].addr as int,
                lists[index][k].size as int,
            ));
        }
        if in_entries(lists, x) && !(e.addr <= x < e.addr + e.size) {
            let (i, j) = choose|i: int, j: int|
                has_entry(lists, i, j) && (#[trigger] lists[i][j]).addr <= x < lists[i][j].addr
                    + lists[i][j].size;
            assert(has_entry(taken, i, j) && taken[i][j] == lists[i][j]);
        }
    }
    assert forall|x: int| e.addr <= x < e.addr + e.size implies #[trigger] in_entries(
        lists,
        x,
    ) by {
        assert(has_entry(lists, index, k) && lists[index][k].addr <= x);
    }
}

/// What an allocation reads and changes of a region: its state, its range, the
/// bytes in use and the free entries.
#[verifier::ext_equal]
pub struct RegionView {
    pub typ: RegionState,
    pub begin: usize,
    pub end: usize,
    pub used: int,
    pub lists: Seq<Seq<Entry>>,
    pub biggest: int,
}

impl RegionView {
    pub open spec fn size(self) -> int {
        self.end - self.begin
    }

    pub open spec fn is_empty(self) -> bool {
        self.typ == RegionState::EmptyUncommited || self.typ == RegionState::EmptyCommited
    }

    /// The bytes that are free: all of an empty region, else those of the free
    /// entries.
    pub open spec fn free(self) -> int {
        if self.is_empty() {
            self.size()
        } else {
            all_bytes(self.lists)
        }
    }

    /// Whether the byte at `x` is free.
    pub open spec fn has_free(self, x: int) -> bool {
        if self.is_empty() {
            self.begin <= x < self.end
        } else {
            in_entries(self.lists, x)
        }
    }

    /// The size of the free entry that is tried first.
    pub open spec fn peek_free(self) -> int {
        if self.biggest > 0 && self.lists[self.biggest].len() > 0 {
            self.lists[self.biggest].last().size as int
        } else {
            0
        }
    }

    /// The region as a regular one: if it is empty, with one free entry for the
    /// whole of it.
    pub open spec fn regular(self) -> RegionView {
        if self.is_empty() {
            RegionView {
                typ: RegionState::Regular,
                lists: lists_with(self.lists, self.begin, self.size() as usize),
                biggest: biggest_with(self.biggest, self.size() as usize),
                ..self
            }
        } else {
            RegionView { typ: RegionState::Regular, ..self }
        }
    }

    /// The region made ready for use again.
    pub open spec fn recycled(self) -> RegionView {
        RegionView {
            typ: if self.typ == RegionState::Trash {
                RegionState::EmptyCommited
            } else {
                self.typ
            },
            used: 0,
            lists: Seq::new(self.lists.len(), |i: int| Seq::<Entry>::empty()),
            biggest: 0,
            ..self
        }
    }

    /// Whether a regular region can serve a request of `size` bytes.
    pub open spec fn can_serve(self, size: int) -> bool {
        servable_in(self.regular().lists, self.regular().biggest, size)
    }

    /// The bucket at which a request of `size` bytes is decided.
    pub open spec fn serving_bucket(self, size: int) -> int {
        decisive_bucket(self.regular().lists, size, self.regular().biggest)
    }

    /// The entry that a request of `size` bytes is served from.
    pub open spec fn serving_entry(self, size: int) -> Entry {
        self.regular().lists[self.serving_bucket(size)].last()
    }

    /// The region after a request of `size` bytes. What the entry has left over
    /// is added again.
    pub open spec fn served(self, size: int) -> RegionView {
        let v = self.regular();
        let index = self.serving_bucket(size);
        if self.can_serve(size) {
            let e = self.serving_entry(size);
            RegionView {
                used: v.used + size,
                lists: lists_with(
                    v.lists.update(index, v.lists[index].drop_last()),
                    (e.addr + size) as usize,
                    (e.size - size) as usize,
                ),
                biggest: biggest_with(index, (e.size - size) as usize),
                ..v
            }
        } else {
            RegionView { biggest: index, ..v }
        }
    }

    /// The address that a request of `size` bytes gets, or zero.
    pub open spec fn served_at(self, size: int) -> usize {
        if self.can_serve(size) {
            self.serving_entry(size).addr
        } else {
            0
        }
    }
}

impl HeapRegion {
    pub const MIN_REGION_SIZE: usize = 4096;

    pub const MIN_NUM_PAGES: usize = 10;

    pub const MAX_REGION_SIZE: usize = 33_554_432;

    pub open spec fn view(&self) -> RegionView {
        RegionView {
            typ: self.typ,
            begin: self.begin,
            end: self.end,
            used: self.used as int,
            lists: self.free_list.lists(),
            biggest: self.free_list.biggest(),
        }
    }

    pub open spec fn spec_size(&self) -> int {
        self.end - self.begin
    }

    pub open spec fn spec_is_empty(&self) -> bool {
        self.typ == RegionState::EmptyUncommited || self.typ == RegionState::EmptyCommited
    }

    /// The range of the region, its object starts and its free entries fit
    /// together; an empty region has no entries.
    pub open spec fn wf(&self) -> bool {
        &&& 0 < self.begin
        &&& self.begin + ENTRY_SIZE <= self.end
        &&& self.end + ENTRY_SIZE <= usize::MAX
        &&& self.object_start_bitmap.wf()
        &&& self.object_start_bitmap.start() == self.begin
        &&& self.object_start_bitmap.end() == self.end
        &&& self.free_list.wf()
        &&& self.free_list.free_total() <= self.spec_size()
        &&& self.free_list.entries() <= self.spec_size()
        &&& entries_within(self.free_list.lists(), self.begin as int, self.end as int)
        &&& self.spec_size() <= u32::MAX
        &&& log2_floor(self.spec_size()) < self.free_list.lists().len()
        &&& self.spec_is_empty() ==> no_entries(self.free_list.lists())
            && self.free_list.free_total() == 0 && self.free_list.entries() == 0 && self.used == 0
            && self.free_list.biggest() == 0
    }

    /// The region is as before but for what the free list, the state and the
    /// counters say.
    pub open spec fn same_place(&self, other: &Self) -> bool {
        &&& self.begin == other.begin
        &&& self.end == other.end
        &&& self.index == other.index
        &&& self.free_list.lists().len() == other.free_list.lists().len()
    }

    pub fn end(&self) -> (r: usize)
        ensures
            r == self.end,
    {
        self.end
    }

    /// A region at `start`, without entries.
    pub fn new(index: usize, start: usize, opts: &HeapOptions, is_commited: bool, now: u64) -> (r:
        Self)
        requires
            opts.wf(),
            16 <= opts.region_size_bytes <= u32::MAX,
            0 < start,
            start + opts.region_size_bytes + ENTRY_SIZE <= usize::MAX,
            opts.region_size_bytes + 127 <= usize::MAX,
        ensures
            r.wf(),
            r.typ == (if is_commited {
                RegionState::EmptyCommited
            } else {
                RegionState::EmptyUncommited
            }),
            r.index == index,
            r.begin == start,
            r.end == start + opts.region_size_bytes,
            r.used == 0,
            r.visited == false,
            r.to_sweep == false,
            r.last_sweep_free == 0,
            r.largest_free_list_entry == opts.region_size_bytes,
            r.empty_time == now,
            no_entries(r.free_list.lists()),
            r.free_list.lists().len() == opts.region_size_log2 + 1,
            r.object_start_bitmap.slots() == Set::<int>::empty(),
    {
        proof {
            vstd::arithmetic::power2::lemma_pow2_unfold((opts.region_size_log2 + 1) as nat);
            lemma_log2_unique(opts.region_size_bytes as int, opts.region_size_log2 as nat);
        }
        let mut r = HeapRegion {
            visited: false,
            last_sweep_free: 0,
            typ: if is_commited {
                RegionState::EmptyCommited
            } else {
                RegionState::EmptyUncommited
            },
            begin: start,
            index,
            used: 0,
            to_sweep: false,
            object_start_bitmap: HeapBitmap::new(start, opts.region_size_bytes),
            end: start + opts.region_size_bytes,
            free_list: FreeList::new(opts),
            largest_free_list_entry: 0,
            empty_time: now,
        };
        r.recycle(now);
        r
    }

    pub fn empty_time(&self) -> (r: u64)
        ensures
            r == self.empty_time,
    {
        self.empty_time
    }

    /// The counters after a region has been committed.
    pub open spec fn commited_by(&self, before: &HeapCounters, after: &HeapCounters) -> bool {
        &&& after.commited == before.commited + self.spec_size()
        &&& after.used == before.used
        &&& after.bytes_allocated_since_gc_start == before.bytes_allocated_since_gc_start
        &&& after.actions@ == before.actions@.push(
            VmAction::Commit { start: self.begin, size: self.spec_size() as usize },
        )
    }

    /// Takes `size` bytes from the free list and returns their address, or zero.
    /// An empty region becomes a regular one first.
    pub fn allocate(&mut self, size: usize, counters: &mut HeapCounters) -> (r: usize)
        requires
            old(self).wf(),
            old(self)@.can_serve(size as int) ==> old(self).used + size <= usize::MAX,
            old(self).typ == RegionState::EmptyUncommited ==> old(counters).commited
                + old(self).spec_size() <= usize::MAX,
        ensures
            final(self).wf(),
            final(self).same_place(old(self)),
            *final(self) == (HeapRegion {
                typ: final(self).typ,
                used: final(self).used,
                free_list: final(self).free_list,
                ..*old(self)
            }),
            final(self)@ == old(self)@.served(size as int),
            r == old(self)@.served_at(size as int),
            old(self)@.can_serve(size as int) ==> {
                &&& r != 0
                &&& old(self).begin <= r
                &&& r + size <= old(self).end
                &&& size + all_bytes(final(self)@.lists) <= old(self)@.free()
            },
            all_bytes(final(self)@.lists) <= old(self)@.free(),
            old(self).typ == RegionState::EmptyUncommited ==> old(self).commited_by(
                old(counters),
                final(counters),
            ),
            old(self).typ != RegionState::EmptyUncommited ==> *final(counters) == *old(counters),
    {
        let ghost before = *self;
        self.make_regular_allocation(counters);
        let ghost lists = self.free_list.lists();
        let ghost biggest = self.free_list.biggest();
        proof {
            lemma_decisive_bucket(lists, size as int, biggest);
        }
        let (result, sz): (usize, usize) = self.free_list.allocate(size);
        if result == 0 {
            return 0;
        }
        let ghost index = decisive_bucket(lists, size as int, biggest);
        let ghost taken = lists.update(index, lists[index].drop_last());
        let ghost entry = lists[index].last();
        proof {
            assert(entry == lists[index][lists[index].len() - 1]);
            assert(has_entry(lists, index, lists[index].len() - 1));
            assert forall|i: int, j: int| has_entry(taken, i, j) implies self.begin <= (#[trigger] taken[i][j]).addr
                && taken[i][j].addr + taken[i][j].size <= self.end by {
                assert(has_entry(lists, i, j));
                assert(lists[i][j] == taken[i][j]);
            }
        }
        if sz > size {
            let remainder: usize = result + size;
            let remainder_size: usize = sz - size;
            proof {
                crate::bits::lemma_low32(remainder_size);
                lemma_log2_monotone(remainder_size as int, before.spec_size());
                super::free_list::lemma_totals(taken);
            }
            self.free_list.add(remainder, remainder_size);
            proof {
                let next = self.free_list.lists();
                assert forall|i: int, j: int| has_entry(next, i, j) implies self.begin <= (#[trigger] next[i][j]).addr
                    && next[i][j].addr + next[i][j].size <= self.end by {
                    if has_entry(taken, i, j) && next[i][j] == taken[i][j] {
                        assert(taken[i][j] == next[i][j]);
                    }
                }
            }
            self.used = self.used + (sz - remainder_size);
        } else {
            proof {
                assert(lists_with(taken, (entry.addr + size) as usize, 0) == taken);
            }
            self.used = self.used + sz;
        }
        result
    }

    /// Commits the memory of the region.
    pub fn do_commit(&mut self, counters: &mut HeapCounters)
        requires
            old(self).begin <= old(self).end,
            old(counters).commited + old(self).spec_size() <= usize::MAX,
        ensures
            *final(self) == (HeapRegion { typ: RegionState::EmptyCommited, ..*old(self) }),
            old(self).commited_by(old(counters), final(counters)),
    {
        counters.actions.push(VmAction::Commit { start: self.begin, size: self.end - self.begin });
        counters.commited = counters.commited + (self.end - self.begin);
        self.typ = RegionState::EmptyCommited;
    }

    /// Gives the memory of the region back.
    pub fn do_decommit(&mut self, counters: &mut HeapCounters)
        requires
            old(self).begin <= old(self).end,
            old(counters).commited >= old(self).spec_size(),
            0 < old(self).free_list.lists().len() <= 64,
        ensures
            final(self).same_place(old(self)),
            *final(self) == (HeapRegion {
                typ: RegionState::EmptyUncommited,
                free_list: final(self).free_list,
                ..*old(self)
            }),
            no_entries(final(self).free_list.lists()),
            final(self).free_list.wf(),
            final(self).free_list.free_total() == 0,
            final(self).free_list.entries() == 0,
            final(self).free_list.biggest() == 0,
            final(counters).commited == old(counters).commited - old(self).spec_size(),
            final(counters).used == old(counters).used,
            final(counters).bytes_allocated_since_gc_start == old(
                counters,
            ).bytes_allocated_since_gc_start,
            final(counters).actions@ == old(counters).actions@.push(
                VmAction::Decommit { start: old(self).begin, size: old(self).spec_size() as usize },
            ),
            old(self).wf() && old(self).used == 0 ==> final(self).wf(),
    {
        counters.actions.push(
            VmAction::Decommit { start: self.begin, size: self.end - self.begin },
        );
        counters.commited = counters.commited - (self.end - self.begin);
        self.free_list.clear();
        self.typ = RegionState::EmptyUncommited;
    }

    /// Makes the region a regular one. An empty region is committed, if it is
    /// not, and gets one free entry for the whole of it.
    pub fn make_regular_allocation(&mut self, counters: &mut HeapCounters)
        requires
            old(self).wf(),
            old(self).typ == RegionState::EmptyUncommited ==> old(counters).commited
                + old(self).spec_size() <= usize::MAX,
        ensures
            final(self).wf(),
            final(self).same_place(old(self)),
            *final(self) == (HeapRegion {
                typ: RegionState::Regular,
                free_list: final(self).free_list,
                ..*old(self)
            }),
            final(self)@ == old(self)@.regular(),
            all_bytes(final(self)@.lists) <= old(self)@.free(),
            old(self).typ == RegionState::EmptyUncommited ==> old(self).commited_by(
                old(counters),
                final(counters),
            ),
            old(self).typ != RegionState::EmptyUncommited ==> *final(counters) == *old(counters),
    {
        let ghost before = *self;
        if self.typ == RegionState::EmptyUncommited {
            self.do_commit(counters);
        }
        if self.typ == RegionState::EmptyCommited {
            let size: usize = self.end - self.begin;
            proof {
                crate::bits::lemma_low32(size);
            }
            self.free_list.add(self.begin, size);
            proof {
                let next = self.free_list.lists();
                assert forall|i: int, j: int| has_entry(next, i, j) implies self.begin <= (#[trigger] next[i][j]).addr
                    && next[i][j].addr + next[i][j].size <= self.end by {
                    assert(before.free_list.lists()[i] == Seq::<Entry>::empty());
                }
            }
        }
        self.typ = RegionState::Regular;
    }

    pub fn used(&self) -> (r: usize)
        ensures
            r == self.used,
    {
        self.used
    }

    /// The bytes that are free.
    pub fn free(&self) -> (r: usize)
        requires
            self.wf(),
        ensures
            r == self@.free(),
            r <= self.spec_size(),
    {
        if self.typ == RegionState::EmptyUncommited || self.typ == RegionState::EmptyCommited {
            return self.size();
        }
        self.free_list.free()
    }

    /// The size of the free entry that is tried first.
    pub fn peek_free(&self) -> (r: usize)
        requires
            self.free_list.wf(),
        ensures
            r == self@.peek_free(),
    {
        self.free_list.peek_free()
    }

    pub fn index(&self) -> (r: usize)
        ensures
            r == self.index,
    {
        self.index
    }

    pub fn bottom(&self) -> (r: usize)
        ensures
            r == self.begin,
    {
        self.begin
    }

    pub fn size(&self) -> (r: usize)
        requires
            self.begin <= self.end,
        ensures
            r == self.spec_size(),
    {
        self.end - self.begin
    }

    pub fn state(&self) -> (r: RegionState)
        ensures
            r == self.typ,
    {
        self.typ
    }

    pub fn set_state(&mut self, state: RegionState)
        ensures
            *final(self) == (HeapRegion { typ: state, ..*old(self) }),
    {
        self.typ = state;
    }

    pub fn set_used(&mut self, bytes: usize)
        ensures
            *final(self) == (HeapRegion { used: bytes, ..*old(self) }),
    {
        self.used = bytes;
    }

    pub fn contains(&self, ptr: usize) -> (r: bool)
        ensures
            r == (self.begin <= ptr < self.end),
    {
        ptr >= self.begin && ptr < self.end
    }

    pub fn is_empty(&self) -> (r: bool)
        ensures
            r == self.spec_is_empty(),
    {
        self.typ == RegionState::EmptyUncommited || self.typ == RegionState::EmptyCommited
    }

    pub fn is_empty_commited(&self) -> (r: bool)
        ensures
            r == (self.typ == RegionState::EmptyCommited),
    {
        self.typ == RegionState::EmptyCommited
    }

    pub fn is_alloc_allowed(&self) -> (r: bool)
        ensures
            r == (self.typ == RegionState::Regular || self.spec_is_empty()),
    {
        self.typ == RegionState::Regular || self.is_empty()
    }

    pub fn is_trash(&self) -> (r: bool)
        ensures
            r == (self.typ == RegionState::Trash),
    {
        self.typ == RegionState::Trash
    }

    /// Makes the region the first one of a humongous object. It is committed, if
    /// it is not, and its free entries are dropped.
    pub fn make_humonogous_start(&mut self, counters: &mut HeapCounters)
        requires
            old(self).begin <= old(self).end,
            0 < old(self).free_list.lists().len() <= 64,
            old(self).typ == RegionState::EmptyUncommited ==> old(counters).commited
                + old(self).spec_size() <= usize::MAX,
        ensures
            final(self).same_place(old(self)),
            *final(self) == (HeapRegion {
                typ: RegionState::HumongousStart,
                free_list: final(self).free_list,
                ..*old(self)
            }),
            final(self).free_list.wf(),
            no_entries(final(self).free_list.lists()),
            final(self).free_list.free_total() == 0,
            final(self).free_list.entries() == 0,
            final(self).free_list.biggest() == 0,
            old(self).typ == RegionState::EmptyUncommited ==> old(self).commited_by(
                old(counters),
                final(counters),
            ),
            old(self).typ != RegionState::EmptyUncommited ==> *final(counters) == *old(counters),
    {
        if self.typ == RegionState::EmptyUncommited {
            self.do_commit(counters);
        }
        self.typ = RegionState::HumongousStart;
        self.free_list.clear();
    }

    /// Makes the region a later one of a humongous object.
    pub fn make_humonogous_cont(&mut self, counters: &mut HeapCounters)
        requires
            old(self).begin <= old(self).end,
            0 < old(self).free_list.lists().len() <= 64,
            old(self).typ == RegionState::EmptyUncommited ==> old(counters).commited
                + old(self).spec_size() <= usize::MAX,
        ensures
            final(self).same_place(old(self)),
            *final(self) == (HeapRegion {
                typ: RegionState::HumongousCont,
                free_list: final(self).free_list,
                ..*old(self)
            }),
            final(self).free_list.wf(),
            no_entries(final(self).free_list.lists()),
            final(self).free_list.free_total() == 0,
            final(self).free_list.entries() == 0,
            final(self).free_list.biggest() == 0,
            old(self).typ == RegionState::EmptyUncommited ==> old(self).commited_by(
                old(counters),
                final(counters),
            ),
            old(self).typ != RegionState::EmptyUncommited ==> *final(counters) == *old(counters),
    {
        if self.typ == RegionState::EmptyUncommited {
            self.do_commit(counters);
        }
        self.typ = RegionState::HumongousCont;
        self.free_list.clear();
    }

    /// Makes the region ready for use again: no free entries, no object starts,
    /// no used bytes. Trash becomes empty.
    pub fn recycle(&mut self, now: u64)
        requires
            old(self).begin <= old(self).end,
            0 < old(self).free_list.lists().len() <= 64,
        ensures
            final(self).same_place(old(self)),
            *final(self) == (HeapRegion {
                typ: final(self).typ,
                used: 0,
                empty_time: final(self).empty_time,
                largest_free_list_entry: final(self).largest_free_list_entry,
                free_list: final(self).free_list,
                object_start_bitmap: final(self).object_start_bitmap,
                ..*old(self)
            }),
            final(self).typ == (if old(self).typ == RegionState::Trash {
                RegionState::EmptyCommited
            } else {
                old(self).typ
            }),
            final(self).empty_time == (if old(self).typ == RegionState::Trash {
                now
            } else {
                old(self).empty_time
            }),
            final(self).largest_free_list_entry == old(self).spec_size(),
            final(self).free_list.wf(),
            no_entries(final(self).free_list.lists()),
            final(self).free_list.free_total() == 0,
            final(self).free_list.entries() == 0,
            final(self).free_list.biggest() == 0,
            final(self).object_start_bitmap.same_shape(&old(self).object_start_bitmap),
            final(self).object_start_bitmap.slots() == Set::<int>::empty(),
            final(self)@ == old(self)@.recycled(),
            old(self).wf() ==> final(self).wf(),
    {
        let ghost before = *self;
        self.free_list.clear();
        if self.typ == RegionState::Trash {
            self.make_empty(now);
        }
        self.object_start_bitmap.clear();
        self.used = 0;
        self.largest_free_list_entry = self.size();
        assert(self@ =~= before@.recycled()) by {
            assert(self@.lists =~= before@.recycled().lists);
        }
    }

    pub fn largest_free_list_entry(&self) -> (r: usize)
        ensures
            r == self.largest_free_list_entry,
    {
        self.largest_free_list_entry
    }

    pub fn set_largest_free_list_entry(&mut self, size: usize)
        ensures
            *final(self) == (HeapRegion { largest_free_list_entry: size, ..*old(self) }),
    {
        self.largest_free_list_entry = size;
    }

    pub fn make_trash(&mut self)
        ensures
            *final(self) == (HeapRegion { typ: RegionState::Trash, ..*old(self) }),
    {
        self.typ = RegionState::Trash;
    }

    pub fn make_empty(&mut self, now: u64)
        ensures
            *final(self) == (HeapRegion {
                typ: RegionState::EmptyCommited,
                empty_time: now,
                ..*old(self)
            }),
    {
        self.typ = RegionState::EmptyCommited;
        self.empty_time = now;
    }

    pub fn is_humongous_start(&self) -> (r: bool)
        ensures
            r == (self.typ == RegionState::HumongousStart),
    {
        self.typ == RegionState::HumongousStart
    }

    pub fn is_humongous_cont(&self) -> (r: bool)
        ensures
            r == (self.typ == RegionState::HumongousCont),
    {
        self.typ == RegionState::HumongousCont
    }

    pub fn is_regular(&self) -> (r: bool)
        ensures
            r == (self.typ == RegionState::Regular),
    {
        self.typ == RegionState::Regular
    }

    /// An allocation never hands out memory that is still free: if the free
    /// entries are apart before it, the piece that is handed out and the entries
    /// that remain are apart from each other.
    pub proof fn lemma_allocate_apart(&self, size: int)
        requires
            self.wf(),
            entries_apart(self@.lists),
            0 <= size,
            self@.can_serve(size),
        ensures
            entries_apart(self@.served(size).lists),
            apart_from_all(self@.served(size).lists, self@.served_at(size) as int, size),
    {
        let lists = self@.regular().lists;
        self.lemma_regular();
        if self.spec_is_empty() {
            assert forall|i: int, j: int| has_entry(self@.lists, i, j) implies false by {
                assert(self@.lists[i] == Seq::<Entry>::empty());
            }
            assert(apart_from_all(self@.lists, self.begin as int, self.spec_size()));
            lemma_apart_add(self@.lists, self.begin, self.spec_size() as usize);
        }
        let index = self@.serving_bucket(size);
        let e = self@.serving_entry(size);
        lemma_decisive_bucket(lists, size, self@.regular().biggest);
        lemma_apart_take(lists, index);
        let taken = lists.update(index, lists[index].drop_last());
        self.lemma_searched(index);
        let rest_addr = (e.addr + size) as usize;
        let rest = (e.size - size) as usize;
        if rest >= ENTRY_SIZE {
            crate::bits::lemma_low32(rest);
            lemma_log2_monotone(rest as int, self.spec_size());
        }
        assert forall|a: int, n: int| e.addr <= a && 0 <= n && a + n <= e.addr + e.size implies #[trigger] apart_from_all(
            taken,
            a,
            n,
        ) by {
            assert forall|i: int, j: int| has_entry(taken, i, j) implies apart(
                (#[trigger] taken[i][j]).addr as int,
                taken[i][j].size as int,
                a,
                n,
            ) by {}
        }
        assert(apart_from_all(taken, rest_addr as int, rest as int));
        assert(apart_from_all(taken, e.addr as int, size));
        lemma_apart_add(taken, rest_addr, rest);
    }

    /// What serving a request does: all its bytes were free and none of them is afterwards.
    /// No other byte becomes free, and none is lost but what is left of the entry if that is
    /// too small to be one. A request that cannot be served changes nothing about that.
    pub proof fn lemma_served(&self, size: int)
        requires
            self.wf(),
            entries_apart(self@.lists),
            0 <= size,
        ensures
            ({
                let v = self@;
                let w = v.served(size);
                let p = v.served_at(size);
                &&& w.typ == RegionState::Regular
                &&& w.begin == v.begin && w.end == v.end
                &&& p != 0 ==> {
                    &&& w.used == v.used + size
                    &&& forall|x: int| p <= x < p + size ==> #[trigger] v.has_free(x)
                    &&& forall|x: int| p <= x < p + size ==> !#[trigger] w.has_free(x)
                    &&& forall|x: int| #[trigger]
                        v.has_free(x) && !(p <= x < p + size + ENTRY_SIZE) ==> w.has_free(x)
                }
                &&& p == 0 ==> w.used == v.used && forall|x: int| #[trigger]
                    v.has_free(x) ==> w.has_free(x)
                &&& forall|x: int| #[trigger] w.has_free(x) ==> v.has_free(x)
                &&& entries_apart(w.lists)
            }),
    {
        let v = self@;
        let w = v.served(size);
        let lists = v.regular().lists;
        self.lemma_regular();
        if self.spec_is_empty() {
            assert forall|i: int, j: int| has_entry(v.lists, i, j) implies false by {
                assert(v.lists[i] == Seq::<Entry>::empty());
            }
            assert(apart_from_all(v.lists, self.begin as int, self.spec_size()));
            lemma_apart_add(v.lists, self.begin, self.spec_size() as usize);
            lemma_bytes_added(v.lists, self.begin, self.spec_size() as usize);
        }
        assert forall|x: int| #[trigger] v.has_free(x) <==> in_entries(lists, x) by {
            if self.spec_is_empty() {
                assert(in_entries(lists, x) <==> in_entries(v.lists, x) || self.begin <= x
                    < self.end);
                assert(!in_entries(v.lists, x));
            }
        }
        lemma_decisive_bucket(lists, size, v.regular().biggest);
        if v.can_serve(size) {
            self.lemma_allocate_apart(size);
            let index = v.serving_bucket(size);
            let e = v.serving_entry(size);
            self.lemma_searched(index);
            lemma_bytes_taken(lists, index);
            let taken = lists.update(index, lists[index].drop_last());
            let rest_addr = (e.addr + size) as usize;
            let rest = (e.size - size) as usize;
            if rest >= ENTRY_SIZE {
                crate::bits::lemma_low32(rest);
                lemma_log2_monotone(rest as int, self.spec_size());
            }
            lemma_bytes_added(taken, rest_addr, rest);
            assert forall|x: int| #[trigger] w.has_free(x) <==> in_entries(lists, x) && !(e.addr
                <= x < e.addr + e.size) || (rest >= ENTRY_SIZE && rest_addr <= x < rest_addr
                + rest) by {
                assert(in_entries(w.lists, x) <==> in_entries(taken, x) || (rest >= ENTRY_SIZE
                    && rest_addr <= x < rest_addr + rest));
                assert(in_entries(taken, x) <==> in_entries(lists, x) && !(e.addr <= x < e.addr
                    + e.size));
            }
            assert forall|x: int| e.addr <= x < e.addr + size implies #[trigger] v.has_free(x) by {
                assert(in_entries(lists, x));
            }
            assert forall|x: int| #[trigger] w.has_free(x) implies v.has_free(x) by {
                if !in_entries(lists, x) {
                    assert(e.addr <= x < e.addr + e.size);
                }
                assert(in_entries(lists, x));
            }
            assert forall|x: int| #[trigger]
                v.has_free(x) && !(e.addr <= x < e.addr + size + ENTRY_SIZE) implies w.has_free(
                x,
            ) by {
                assert(in_entries(lists, x));
            }
        } else {
            assert forall|x: int| #[trigger] w.has_free(x) <==> in_entries(lists, x) by {}
            assert forall|x: int| #[trigger] v.has_free(x) implies w.has_free(x) by {
                assert(in_entries(lists, x));
            }
            assert forall|x: int| #[trigger] w.has_free(x) implies v.has_free(x) by {
                assert(in_entries(lists, x));
            }
        }
    }

    proof fn lemma_regular(&self)
        requires
            self.wf(),
        ensures
            self.spec_is_empty() ==> 0 <= bucket_of(self.spec_size() as usize)
                < self@.lists.len(),
            self@.regular().lists.len() == self@.lists.len(),
            0 <= self@.regular().biggest < self@.lists.len(),
    {
        let size = self.spec_size() as usize;
        crate::bits::lemma_low32(size);
    }

    proof fn lemma_searched(&self, index: int)
        requires
            self.wf(),
            0 <= index < self@.regular().lists.len(),
            self@.regular().lists[index].len() > 0,
        ensures
            ({
                let e = self@.regular().lists[index].last();
                &&& self.begin <= e.addr
                &&& e.addr + e.size <= self.end
                &&& pow2(index as nat) <= e.size
            }),
    {
        self.lemma_regular();
        let lists = self@.regular().lists;
        let j = lists[index].len() - 1;
        let e = lists[index][j];
        if self.spec_is_empty() {
            assert(self@.lists[index] == Seq::<Entry>::empty());
            lemma_log2_floor(self.spec_size());
            let size = self.spec_size() as usize;
            crate::bits::lemma_low32(size);
        } else {
            assert(has_entry(self@.lists, index, j));
            assert(self@.lists[index][j] == e);
        }
    }

    /// The size of the regions, its exponent, and the size of the heap.
    fn size_regions(args: &HeapArguments, page_size: usize) -> (r: (usize, usize, usize))
        requires
            args.sizeable(page_size as int),
        ensures
            r.0 == pow2(r.1 as nat),
            r.1 == args.region_log2(page_size as int),
            3 <= r.1 < usize::BITS,
            r.2 == args.heap_size(page_size as int),
            r.2 >= args.max_heap_size,
            r.2 as int % r.0 as int == 0,
    {
        let min_region_size: usize = if args.min_region_size < HeapRegion::MIN_REGION_SIZE {
            HeapRegion::MIN_REGION_SIZE
        } else {
            args.min_region_size
        };
        let target_num_regions: usize = if args.target_num_regions == 0 {
            2048
        } else {
            args.target_num_regions
        };
        let max_region_size: usize = if args.max_region_size == 0 || args.max_region_size
            < args.min_region_size {
            HeapRegion::MAX_REGION_SIZE
        } else {
            args.max_region_size
        };
        let wanted: usize = if args.region_size != 0 {
            args.region_size
        } else {
            let mut region_size: usize = args.max_heap_size / target_num_regions;
            if region_size < min_region_size {
                region_size = min_region_size;
            }
            if max_region_size < region_size {
                region_size = max_region_size;
            }
            region_size
        };
        assert(wanted == args.region_size_wanted());
        let pages: usize = align_usize(wanted, page_size);
        proof {
            lemma_rounded_up(wanted as int, page_size as int);
            if pages < page_size {
                vstd::arithmetic::div_mod::lemma_small_mod(pages as nat, page_size as nat);
            }
            assert(pages >= 8);
        }
        let mut max_heap_size: usize = align_usize(args.max_heap_size, pages);
        let region_size_log: usize = log2_floor_of(pages);
        proof {
            lemma_log2_floor(pages as int);
            lemma_rounded_up(args.max_heap_size as int, pages as int);
            vstd::arithmetic::power2::lemma_pow2_pos(region_size_log as nat);
            vstd::bits::lemma_usize_shl_is_mul(1, region_size_log);
        }
        let region_size: usize = 1usize << region_size_log;
        proof {
            lemma_rounded_up(max_heap_size as int, region_size as int);
            vstd::arithmetic::power2::lemma2_to64();
            if region_size_log < 3 {
                lemma_pow2_strictly_increases(region_size_log as nat, 3);
                if region_size_log + 1 < 3 {
                    lemma_pow2_strictly_increases((region_size_log + 1) as nat, 3);
                }
            }
        }
        max_heap_size = align_usize(max_heap_size, region_size);
        (region_size, region_size_log, max_heap_size)
    }

    /// Setups heap region sizes and thresholds based on input parameters.
    ///
    /// # Notes
    /// - `humongous_threshold` is a percentage of memory in region that could be
    ///   used for large object, for example: if you have humongous_threshold set
    ///   to 50 and your region size is 4KB then largest object that will be
    ///   allocated using free-list is 2KB, objects larger than that get a separate
    ///   humongous region(s).
    pub fn setup_sizes(args: &HeapArguments, page_size: usize) -> (r: HeapOptions)
        requires
            args.sizeable(page_size as int),
        ensures
            r.wf(),
            r.region_size_bytes_shift == args.region_log2(page_size as int),
            r.max_heap_size == args.heap_size(page_size as int),
            r.region_count * r.region_size_bytes == r.max_heap_size,
            r.region_count == r.max_heap_size as int / r.region_size_bytes as int,
            r.max_heap_size >= args.max_heap_size,
            r.region_size_words == r.region_size_bytes / 8,
            r.region_size_words_mask == r.region_size_bytes - 1,
            r.region_size_words_shift == r.region_size_bytes_shift - 3,
            r.region_payload_size_bytes == 0,
            r.region_payload_size_words == 0,
            r.humongous_threshold_words == args.humongous_words(page_size as int),
            r.humongous_threshold_bytes == r.humongous_threshold_words * 8,
            r.min_tlab_size == (if args.min_tlab_size < 2048 {
                2048
            } else {
                args.min_tlab_size
            }),
            ({
                let share = if r.region_size_bytes / 8 < r.humongous_threshold_bytes {
                    r.region_size_bytes / 8
                } else {
                    r.humongous_threshold_bytes
                };
                r.max_tlab_size == (if share < r.min_tlab_size {
                    r.min_tlab_size
                } else {
                    share
                })
            }),
            r.tlab_size == (if args.tlab_size > r.humongous_threshold_bytes {
                r.humongous_threshold_bytes
            } else {
                args.tlab_size
            }),
            r.target_refills == (if 100int / (2 * args.tlab_waste_target_percent) < 2 {
                2int
            } else {
                100int / (2 * args.tlab_waste_target_percent)
            }),
            r.mark_loop_stride == (if args.mark_loop_stride < 32 {
                32
            } else {
                args.mark_loop_stride
            }),
            r.parallel_region_stride == (if args.parallel_region_stride == 0
                && args.parallel_gc_threads != 0 || args.parallel_region_stride == 1024 {
                r.region_count / args.parallel_gc_threads
            } else {
                args.parallel_region_stride
            }),
            r.parallel_mark == args.parallel_mark,
            r.parallel_sweep == args.parallel_sweep,
            r.uncommit == args.uncommit,
            r.parallel_gc_threads == args.parallel_gc_threads,
            r.allocation_threshold == args.allocation_threshold,
            r.min_free_threshold == args.min_free_threshold,
            r.control_interval_adjust_period == args.control_interval_adjust_period,
            r.control_interval_max == args.control_interval_max,
            r.control_interval_min == args.control_interval_min,
            r.uncommit_delay == args.uncommit_delay,
            r.guaranteed_gc_interval == args.guaranteed_gc_interval,
            r.max_satb_buffer_flushes == args.max_satb_buffer_flushes,
            r.max_satb_buffer_size == args.max_satb_buffer_size,
            r.full_gc_threshold == args.full_gc_threshold,
            r.always_full == args.always_full,
            r.learning_steps == args.learning_steps,
            r.immediate_threshold == args.immediate_threshold,
            r.adaptive_sample_frequency_hz == args.adaptive_sample_frequency_hz,
            r.adaptive_sample_frequency_size_seconds
                == args.adaptive_sample_frequency_size_seconds,
            r.alloc_spike_factor == args.alloc_spike_factor,
            r.init_free_threshold == args.init_free_threshold,
            r.pacing == args.pacing,
            r.pacing_cycle_slack == args.pacing_cycle_slack,
            r.pacing_idle_slack == args.pacing_idle_slack,
            r.pacing_max_delay == args.pacing_max_delay,
            r.parallel_root_mark_tasks == args.parallel_root_mark_tasks,
            r.elastic_tlab == args.elastic_tlab,
    {
        let mut target_refills: usize = 100 / (2 * args.tlab_waste_target_percent);
        if target_refills < 2 {
            target_refills = 2;
        }
        let mark_loop_stride: usize = if args.mark_loop_stride < 32 {
            32
        } else {
            args.mark_loop_stride
        };
        let (region_size, region_size_log, max_heap_size): (usize, usize, usize) =
            Self::size_regions(args, page_size);
        proof {
            vstd::arithmetic::power2::lemma_pow2_pos(region_size_log as nat);
        }
        let region_count: usize = max_heap_size / region_size;
        proof {
            vstd::arithmetic::div_mod::lemma_fundamental_div_mod(
                max_heap_size as int,
                region_size as int,
            );
            let q = max_heap_size as int / region_size as int;
            assert(q * region_size == region_size * q) by (nonlinear_arith);
        }
        let region_size_words: usize = region_size / 8;
        let humongous_threshold: usize = if args.humongous_threshold == 0 {
            100
        } else {
            args.humongous_threshold
        };
        proof {
            assert(is_power_of_two(8)) by {
                vstd::arithmetic::power2::lemma2_to64();
                assert(pow2(3) == 8);
            }
        }
        let humongous_threshold_words: usize = align_down(
            region_size_words * humongous_threshold / 100,
            8,
        );
        let humongous_threshold_bytes: usize = humongous_threshold_words * 8;
        // The rationale for trimming TLAB sizes has to do with the size of regions
        // and wasteful memory usage. The worst case realizes when "answer" is
        // "region size", which means it could prematurely retire an entire region.
        // Having smaller TLABs does not fix that completely, but reduces the
        // probability of too wasteful region usage. With current divisor we will
        // waste no more than 1/8 of region size in the worst case.
        let mut max_tlab_size: usize = region_size / 8;
        if humongous_threshold_bytes < max_tlab_size {
            max_tlab_size = humongous_threshold_bytes;
        }
        let min_tlab_size: usize = if args.min_tlab_size < 2 * 1024 {
            2 * 1024
        } else {
            args.min_tlab_size
        };
        if min_tlab_size > max_tlab_size {
            max_tlab_size = min_tlab_size;
        }
        let mut tlab_size: usize = args.tlab_size;
        if tlab_size != 0 && humongous_threshold_bytes < tlab_size {
            tlab_size = humongous_threshold_bytes;
        }
        let mut parallel_region_stride: usize = args.parallel_region_stride;
        if parallel_region_stride == 0 && args.parallel_gc_threads != 0 || parallel_region_stride
            == 1024 {
            parallel_region_stride = region_count / args.parallel_gc_threads;
        }
        HeapOptions {
            region_size_bytes: region_size,
            region_size_words,
            region_size_bytes_shift: region_size_log,
            region_size_bytes_mask: region_size - 1,
            region_size_words_shift: region_size_log - 3,
            region_size_words_mask: region_size - 1,
            region_payload_size_bytes: 0,
            region_payload_size_words: 0,
            region_count,
            humongous_threshold_words,
            humongous_threshold_bytes,
            max_heap_size,
            max_tlab_size,
            tlab_size,
            min_tlab_size,
            region_size_log2: region_size_log,
            elastic_tlab: args.elastic_tlab,
            min_free_threshold: args.min_free_threshold,
            allocation_threshold: args.allocation_threshold,
            guaranteed_gc_interval: args.guaranteed_gc_interval,
            control_interval_min: args.control_interval_min,
            control_interval_max: args.control_interval_max,
            control_interval_adjust_period: args.control_interval_adjust_period,
            uncommit: args.uncommit,
            uncommit_delay: args.uncommit_delay,
            target_refills,
            parallel_gc_threads: args.parallel_gc_threads,
            parallel_region_stride,
            parallel_mark: args.parallel_mark,
            parallel_sweep: args.parallel_sweep,
            mark_loop_stride,
            max_satb_buffer_flushes: args.max_satb_buffer_flushes,
            max_satb_buffer_size: args.max_satb_buffer_size,
            full_gc_threshold: args.full_gc_threshold,
            always_full: args.always_full,
            learning_steps: args.learning_steps,
            immediate_threshold: args.immediate_threshold,
            adaptive_sample_frequency_hz: args.adaptive_sample_frequency_hz,
            adaptive_sample_frequency_size_seconds: args.adaptive_sample_frequency_size_seconds,
            alloc_spike_factor: args.alloc_spike_factor,
            init_free_threshold: args.init_free_threshold,
            pacing: args.pacing,
            pacing_max_delay: args.pacing_max_delay,
            pacing_cycle_slack: args.pacing_cycle_slack,
            pacing_idle_slack: args.pacing_idle_slack,
            parallel_root_mark_tasks: args.parallel_root_mark_tasks,
        }
    }
}

/// Rounding up gives the least multiple that is not below.
pub proof fn lemma_rounded_up(x: int, align: int)
    requires
        align > 0,
        x >= 0,
    ensures
        rounded_up(x, align) % align == 0,
        x <= rounded_up(x, align) < x + align,
{
    let n = x + align - 1;
    vstd::arithmetic::div_mod::lemma_fundamental_div_mod(n, align);
    vstd::arithmetic::div_mod::lemma_mod_multiples_basic(n / align, align);
    assert((n / align) * align == align * (n / align)) by (nonlinear_arith);
}

/// The logarithm grows with the number.
pub proof fn lemma_log2_monotone(a: int, b: int)
    requires
        1 <= a <= b,
    ensures
        log2_floor(a) <= log2_floor(b),
    decreases b,
{
    if a > 1 {
        lemma_log2_monotone(a / 2, b / 2);
    }
}

} // verus!
