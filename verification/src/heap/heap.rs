//! The heap as a whole: its regions, the set of those that have room, and what is shared
//! by collections.

use vstd::prelude::*;

use super::card_table::{age_card_visitor, word_up, CardTable};
use super::controller::{ControlThread, ControlView};
use super::free_set::{
    ask_of, attempt, contiguous, offers_memory, regions_wf, search_end,
    search_result, too_few, tried, RegionFreeSet,
};
use super::marking_context::MarkingContext;
use super::region::{HeapCounters, HeapOptions, HeapRegion, RegionState, VmAction};
use super::shared_vars::SharedFlag;
use super::{AllocRequest, AllocType};

verus! {

/// Nobody has cancelled the cycle.
pub const GC_CANCELLABLE: u8 = 0;

/// The cycle has been cancelled.
pub const GC_CANCELLED: u8 = 1;

/// A thread of the collector lets others run. Meanwhile the cycle cannot be cancelled.
pub const GC_NOT_CANCELLED: u8 = 2;

/// The number of further attempts that a failed allocation makes.
pub const MAX_ALLOCATION_TRIES: usize = 3;

/// How much of a heap is committed from the start.
#[derive(Clone, Copy, PartialEq, Eq, Debug, Structural)]
pub struct InitialSizes {
    pub num_commited_regions: usize,
    pub initial_size: usize,
    pub minimum_size: usize,
}

/// How much of a heap is committed from the start: as many whole regions as the initial
/// size has room for, at most all of them.
pub open spec fn initial_sizes_of(initial: int, minimum: int, size: int, count: int) -> (
    int,
    int,
    int,
) {
    let fit = initial / size;
    let n = if fit < count {
        fit
    } else {
        count
    };
    (n, n * size, minimum / size * size)
}

pub fn initial_sizes(init_byte_size: usize, min_byte_size: usize, opts: &HeapOptions) -> (r:
    InitialSizes)
    requires
        opts.region_size_bytes > 0,
    ensures
        (
            r.num_commited_regions as int,
            r.initial_size as int,
            r.minimum_size as int,
        ) == initial_sizes_of(
            init_byte_size as int,
            min_byte_size as int,
            opts.region_size_bytes as int,
            opts.region_count as int,
        ),
        r.num_commited_regions <= opts.region_count,
        r.initial_size == r.num_commited_regions * opts.region_size_bytes,
{
    let size: usize = opts.region_size_bytes;
    let mut n: usize = init_byte_size / size;
    let m: usize = min_byte_size / size;
    proof {
        vstd::arithmetic::div_mod::lemma_fundamental_div_mod(init_byte_size as int, size as int);
        vstd::arithmetic::div_mod::lemma_fundamental_div_mod(min_byte_size as int, size as int);
        assert(m * size == size * m) by (nonlinear_arith);
        assert(n * size == size * n) by (nonlinear_arith);
        if opts.region_count < n {
            let c = opts.region_count;
            assert(c * size <= n * size) by (nonlinear_arith)
                requires
                    c < n,
            ;
        }
    }
    if opts.region_count < n {
        n = opts.region_count;
    }
    InitialSizes { num_commited_regions: n, initial_size: n * size, minimum_size: m * size }
}

/// A heap of regions.
pub struct Heap {
    pub start: usize,
    pub size: usize,
    pub opts: HeapOptions,
    pub regions: Vec<HeapRegion>,
    pub free_set: RegionFreeSet,
    pub counters: HeapCounters,
    pub marking_context: MarkingContext,
    pub card_table: CardTable,
    pub initial_size: usize,
    pub minimum_size: usize,
    pub concurrent_mark_in_progress: SharedFlag,
    pub progress_last_gc: SharedFlag,
    pub cancelled_gc: u8,
}

/// What an attempt to allocate comes to.
#[derive(Clone, Copy, PartialEq, Eq, Debug, Structural)]
pub enum AllocStep {
    /// The address, or zero if there is no memory.
    Done { addr: usize },
    /// The caller has to wait for a cycle, and to try again.
    Wait,
}

/// How far an allocation has come.
#[derive(Clone, Copy, PartialEq, Eq, Debug, Structural)]
pub struct AllocTries {
    pub tries: usize,
    pub in_new_region: bool,
}

/// What a thread of the collector may do that wants to let others run.
#[derive(Clone, Copy, PartialEq, Eq, Debug, Structural)]
pub enum YieldCheck {
    /// It may not. Tells whether the cycle has been cancelled.
    Go { cancelled: bool },
    /// It may, and afterwards ends its pause. Tells whether it was the one that forbade to
    /// cancel the cycle.
    MayYield { restore: bool },
}

/// Whether the regions lie side by side from `start` on.
pub open spec fn laid_out(regions: Seq<HeapRegion>, start: int, size: int) -> bool {
    forall|i: int|
        #![trigger regions[i]]
        0 <= i < regions.len() ==> regions[i].begin == start + i * size && regions[i].begin % 16
            == 0
}

/// Whether a region has been empty since before `before`, and its memory can be given back.
pub open spec fn is_cold(region: HeapRegion, before: u64) -> bool {
    region.typ == RegionState::EmptyCommited && region.empty_time < before
}

/// The regions whose memory is given back, the last one first, if that is decided for the
/// first `n` regions and `commited` bytes are committed. At least `until` bytes stay
/// committed.
pub open spec fn uncommitted(
    regions: Seq<HeapRegion>,
    n: int,
    commited: int,
    before: u64,
    until: int,
    size: int,
) -> Seq<int>
    decreases n,
{
    if n <= 0 {
        Seq::empty()
    } else if !is_cold(regions[n - 1], before) {
        uncommitted(regions, n - 1, commited, before, until, size)
    } else if commited < until + size {
        Seq::empty()
    } else {
        seq![n - 1] + uncommitted(regions, n - 1, commited - size, before, until, size)
    }
}

/// The requests that give the memory of regions back.
pub open spec fn decommits(regions: Seq<HeapRegion>, list: Seq<int>, size: int) -> Seq<VmAction> {
    list.map_values(
        |i: int| VmAction::Decommit { start: regions[i].begin, size: size as usize },
    )
}

/// The first region of the humongous object that region `i` belongs to.
pub open spec fn humongous_start(regions: Seq<HeapRegion>, i: int) -> int
    decreases i,
{
    if i <= 0 || regions[i].typ == RegionState::HumongousStart {
        i
    } else {
        humongous_start(regions, i - 1)
    }
}

/// Whether there is a first region of a humongous object at or before region `i`.
pub open spec fn has_humongous_start(regions: Seq<HeapRegion>, i: int) -> bool {
    exists|j: int|
        0 <= j <= i && (#[trigger] regions[j]).typ == RegionState::HumongousStart
}

proof fn lemma_humongous_start(regions: Seq<HeapRegion>, i: int)
    requires
        has_humongous_start(regions, i),
        0 <= i,
    ensures
        0 <= humongous_start(regions, i) <= i,
        regions[humongous_start(regions, i)].typ == RegionState::HumongousStart,
        forall|j: int|
            humongous_start(regions, i) < j <= i ==> (#[trigger] regions[j]).typ
                != RegionState::HumongousStart,
    decreases i,
{
    if i > 0 && regions[i].typ != RegionState::HumongousStart {
        assert(has_humongous_start(regions, i - 1));
        lemma_humongous_start(regions, i - 1);
    }
}

/// Whether an attempt to allocate in the set of regions turns one heap into another. The
/// counters are those before the allocation is accounted for.
pub open spec fn allocation(
    before: Heap,
    after: Heap,
    req: AllocRequest,
    served: AllocRequest,
    counters: HeapCounters,
    new_before: bool,
    new_after: bool,
    addr: usize,
    now: u64,
) -> bool {
    let opts = before.opts;
    let size = req.spec_size() as int;
    &&& after.free_set.bounds_follow(&before.free_set)
    &&& after == (Heap {
        free_set: after.free_set,
        regions: after.regions,
        counters: after.counters,
        ..before
    })
    &&& after.counters == (HeapCounters {
        bytes_allocated_since_gc_start: after.counters.bytes_allocated_since_gc_start,
        ..counters
    })
    &&& size > opts.humongous_threshold_bytes ==> {
        &&& new_after
        &&& too_few(before.free_set, before.regions@, opts, size) ==> {
            &&& addr == 0
            &&& after.free_set == before.free_set
            &&& after.regions@ == before.regions@
            &&& counters == before.counters
            &&& served == req
        }
        &&& !too_few(before.free_set, before.regions@, opts, size) ==> {
            &&& addr != 0
            &&& served.spec_actual_size() == size
            &&& exists|beg: int|
                addr == before.regions@[beg].begin && #[trigger] contiguous(
                    before.free_set,
                    after.free_set,
                    before.regions@,
                    after.regions@,
                    before.counters,
                    counters,
                    opts,
                    size,
                    beg,
                    now,
                )
        }
    }
    &&& size <= opts.humongous_threshold_bytes ==> {
        let ask = ask_of(req, opts);
        let lo = before.free_set.mutator_leftmost as int;
        let hi = before.free_set.mutator_rightmost + 1;
        let k = search_end(before.regions@, before.free_set.ones(), ask, lo, hi);
        &&& addr == search_result(before.regions@, before.free_set.ones(), ask, lo, hi)
        &&& served.spec_actual_size() == (if addr != 0 {
            attempt(before.regions@[k - 1]@, ask).size
        } else {
            req.spec_actual_size() as int
        })
        &&& tried(
            before.free_set,
            after.free_set,
            before.regions@,
            after.regions@,
            before.counters,
            counters,
            ask,
            new_before,
            new_after,
            opts.region_size_bytes as int,
            lo,
            k,
            now,
        )
    }
}

/// What is to be done to every region.
pub trait HeapRegionClosure: Sized {
    /// Whether the closure turns a region into another.
    spec fn turns(&self, before: HeapRegion, after: HeapRegion) -> bool;

    fn heap_region_do(&self, r: &mut HeapRegion)
        ensures
            self.turns(*old(r), *final(r)),
    ;
}

impl Heap {
    /// The heap is in order: its regions lie side by side and fill it, and the tables cover
    /// it.
    pub open spec fn wf(&self) -> bool {
        &&& regions_wf(self.regions@, self.opts)
        &&& self.regions@.len() == self.opts.region_count
        &&& self.opts.region_count > 0
        &&& laid_out(self.regions@, self.start as int, self.opts.region_size_bytes as int)
        &&& self.size == self.opts.region_count * self.opts.region_size_bytes
        &&& self.start + self.size <= usize::MAX
        &&& self.opts.region_count + 7 <= usize::MAX
        &&& self.marking_context.wf()
        &&& self.card_table.in_map(self.start as int, self.start + self.size)
        &&& self.concurrent_mark_in_progress.wf()
        &&& self.progress_last_gc.wf()
        &&& self.cancelled_gc <= 2
    }

    /// The region that an address lies in.
    pub open spec fn region_of(&self, addr: int) -> int {
        (addr - self.start) / self.opts.region_size_bytes as int
    }

    /// An address of the heap lies in the region that its number says.
    pub proof fn lemma_region_of(&self, addr: int)
        requires
            self.wf(),
            self.start <= addr < self.start + self.size,
        ensures
            0 <= self.region_of(addr) < self.regions@.len(),
            self.regions@[self.region_of(addr)].begin <= addr < self.regions@[self.region_of(
                addr,
            )].end,
    {
        let s = self.opts.region_size_bytes as int;
        let n = self.opts.region_count as int;
        let off = addr - self.start;
        vstd::arithmetic::power2::lemma_pow2_pos(self.opts.region_size_bytes_shift as nat);
        vstd::arithmetic::div_mod::lemma_fundamental_div_mod(off, s);
        let q = off / s;
        assert(0 <= q < n) by (nonlinear_arith)
            requires
                off == s * q + off % s,
                0 <= off % s < s,
                0 <= off < n * s,
                s > 0,
        ;
        assert(q * s == s * q) by (nonlinear_arith);
        let r = self.regions@[q];
        assert(r.spec_size() == s);
    }

    /// A heap for the memory at `mem_start`, with a card table at `map_begin`, and the
    /// request to give back the memory that is not committed from the start, if it is made
    /// of whole pages.
    pub fn new(
        initial_heap_size: usize,
        min_heap_size: usize,
        opts: HeapOptions,
        mem_start: usize,
        map_begin: usize,
        map_size: usize,
        page_size: usize,
        now: u64,
    ) -> (r: (Self, Option<VmAction>))
        requires
            opts.wf(),
            16 <= opts.region_size_bytes <= u32::MAX,
            0 < opts.region_count,
            opts.region_count + 7 <= usize::MAX,
            opts.max_heap_size == opts.region_count * opts.region_size_bytes,
            opts.max_heap_size + 127 <= usize::MAX,
            0 < mem_start,
            mem_start % 16 == 0,
            mem_start + opts.max_heap_size + 16 <= usize::MAX,
            mem_start / 1024 <= map_begin,
            map_begin + 256 <= usize::MAX,
            map_begin + map_size <= usize::MAX,
            map_begin % 8 == 0,
            opts.max_heap_size / 1024 + 256 <= map_size,
            page_size > 0,
        ensures
            r.0.wf(),
            r.0.start == mem_start,
            r.0.size == opts.max_heap_size,
            r.0.opts == opts,
            ({
                let (n, initial, minimum) = initial_sizes_of(
                    initial_heap_size as int,
                    min_heap_size as int,
                    opts.region_size_bytes as int,
                    opts.region_count as int,
                );
                let rest = opts.max_heap_size - initial;
                &&& r.0.initial_size == initial
                &&& r.0.minimum_size == minimum
                &&& r.0.counters.commited == initial
                &&& forall|i: int|
                    0 <= i < opts.region_count ==> (#[trigger] r.0.regions@[i]).typ == if i < n {
                        RegionState::EmptyCommited
                    } else {
                        RegionState::EmptyUncommited
                    }
                &&& r.1 == if rest != 0 && rest % page_size as int == 0 {
                    Some(
                        VmAction::Decommit {
                            start: (mem_start + initial) as usize,
                            size: rest as usize,
                        },
                    )
                } else {
                    None
                }
            }),
            r.0.counters.used == 0,
            r.0.counters.bytes_allocated_since_gc_start == 0,
            r.0.counters.actions@ == Seq::<VmAction>::empty(),
            r.0.free_set.fits(r.0.regions@, opts),
            r.0.free_set.used == 0,
            forall|i: int| #[trigger]
                r.0.free_set.ones().contains(i) <==> 0 <= i < opts.region_count && offers_memory(
                    r.0.regions@[i]@,
                    opts,
                ),
            r.0.marking_context.bits().start() == mem_start,
            r.0.marking_context.bits().end() == mem_start + opts.max_heap_size,
            r.0.marking_context.bits().slots() == Set::<int>::empty(),
            r.0.marking_context.queues().views().len() == if opts.parallel_gc_threads == 0 {
                1
            } else {
                opts.parallel_gc_threads as int
            },
            r.0.card_table.wf(),
            r.0.card_table.begin() == map_begin,
            r.0.card_table@.len() == map_size,
            forall|k: int|
                0 <= k < map_size ==> (#[trigger] r.0.card_table@[k]) == CardTable::CARD_CLEAN,
            r.0.card_table.bias() % 256 == CardTable::CARD_DIRTY,
            0 <= r.0.card_table.card(mem_start as int) < 256,
            !r.0.concurrent_mark_in_progress.on(),
            !r.0.progress_last_gc.on(),
            r.0.cancelled_gc == GC_CANCELLABLE,
    {
        let sizes: InitialSizes = initial_sizes(initial_heap_size, min_heap_size, &opts);
        let region_size: usize = opts.region_size_bytes;
        proof {
            let n = sizes.num_commited_regions;
            let c = opts.region_count;
            assert(n * region_size <= c * region_size) by (nonlinear_arith)
                requires
                    n <= c,
            ;
            lemma_sixteen(opts);
        }
        let uncommit_start: usize = mem_start + sizes.initial_size;
        let uncommit_size: usize = opts.max_heap_size - sizes.initial_size;
        let action: Option<VmAction> = if uncommit_size != 0 && uncommit_size % page_size == 0 {
            Some(VmAction::Decommit { start: uncommit_start, size: uncommit_size })
        } else {
            None
        };
        let queues: usize = if opts.parallel_gc_threads == 0 {
            1
        } else {
            opts.parallel_gc_threads
        };
        let mark_ctx = MarkingContext::new(mem_start, opts.max_heap_size, queues);
        let mut free_set = RegionFreeSet::new(&opts);
        let card_table = CardTable::new(mem_start, opts.max_heap_size, map_begin, map_size);
        let mut regions: Vec<HeapRegion> = Vec::new();
        let mut i: usize = 0;
        while i < opts.region_count
            invariant
                i <= opts.region_count,
                regions@.len() == i,
                region_size == opts.region_size_bytes,
                opts.wf(),
                16 <= opts.region_size_bytes <= u32::MAX,
                opts.region_size_bytes % 16 == 0,
                opts.max_heap_size == opts.region_count * opts.region_size_bytes,
                opts.max_heap_size + 127 <= usize::MAX,
                0 < mem_start,
                mem_start % 16 == 0,
                mem_start + opts.max_heap_size + 16 <= usize::MAX,
                regions_wf(regions@, opts),
                laid_out(regions@, mem_start as int, region_size as int),
                forall|k: int|
                    0 <= k < i ==> (#[trigger] regions@[k]).typ == if k
                        < sizes.num_commited_regions {
                        RegionState::EmptyCommited
                    } else {
                        RegionState::EmptyUncommited
                    },
                forall|k: int| 0 <= k < i ==> !(#[trigger] regions@[k]).to_sweep,
            decreases opts.region_count - i,
        {
            proof {
                let c = opts.region_count;
                assert(i * region_size + region_size <= c * region_size) by (nonlinear_arith)
                    requires
                        i < c,
                ;
                assert(region_size <= c * region_size) by (nonlinear_arith)
                    requires
                        0 < c,
                ;
                lemma_sixteen_times(i as int, region_size as int);
            }
            let start: usize = mem_start + region_size * i;
            let region = HeapRegion::new(
                i,
                start,
                &opts,
                i < sizes.num_commited_regions,
                now,
            );
            regions.push(region);
            i = i + 1;
        }
        free_set.set_heap(opts.region_count);
        free_set.rebuild(&regions, &opts);
        (
            Heap {
                start: mem_start,
                size: opts.max_heap_size,
                opts,
                regions,
                free_set,
                counters: HeapCounters {
                    used: 0,
                    commited: sizes.initial_size,
                    bytes_allocated_since_gc_start: 0,
                    actions: Vec::new(),
                },
                marking_context: mark_ctx,
                card_table,
                initial_size: sizes.initial_size,
                minimum_size: sizes.minimum_size,
                concurrent_mark_in_progress: SharedFlag::new(),
                progress_last_gc: SharedFlag::new(),
                cancelled_gc: GC_CANCELLABLE,
            },
            action,
        )
    }

    pub fn options(&self) -> (r: &HeapOptions)
        ensures
            *r == self.opts,
    {
        &self.opts
    }

    pub fn is_concurrent_mark_in_progress(&self) -> (r: bool)
        ensures
            r == self.concurrent_mark_in_progress.on(),
    {
        self.concurrent_mark_in_progress.is_set()
    }

    pub fn set_concurrent_mark_in_progress(&mut self, value: bool)
        ensures
            final(self).concurrent_mark_in_progress.on() == value,
            *final(self) == (Heap {
                concurrent_mark_in_progress: final(self).concurrent_mark_in_progress,
                ..*old(self)
            }),
            old(self).wf() ==> final(self).wf(),
    {
        self.concurrent_mark_in_progress.set_cond(value);
    }

    pub fn min_capacity(&self) -> (r: usize)
        ensures
            r == self.minimum_size,
    {
        self.minimum_size
    }

    pub fn get_commited(&self) -> (r: usize)
        ensures
            r == self.counters.commited,
    {
        self.counters.commited
    }

    pub fn bytes_allocated_since_gc_start(&self) -> (r: usize)
        ensures
            r == self.counters.bytes_allocated_since_gc_start,
    {
        self.counters.bytes_allocated_since_gc_start
    }

    pub fn set_allocated(&mut self, bytes: usize)
        ensures
            *final(self) == (Heap {
                counters: HeapCounters {
                    bytes_allocated_since_gc_start: bytes,
                    ..old(self).counters
                },
                ..*old(self)
            }),
    {
        self.counters.bytes_allocated_since_gc_start = bytes;
    }

    pub fn notify_gc_progress(&mut self)
        ensures
            final(self).progress_last_gc.on(),
            *final(self) == (Heap {
                progress_last_gc: final(self).progress_last_gc,
                ..*old(self)
            }),
            old(self).wf() ==> final(self).wf(),
    {
        self.progress_last_gc.set();
    }

    pub fn notify_no_gc_progress(&mut self)
        ensures
            !final(self).progress_last_gc.on(),
            *final(self) == (Heap {
                progress_last_gc: final(self).progress_last_gc,
                ..*old(self)
            }),
            old(self).wf() ==> final(self).wf(),
    {
        self.progress_last_gc.unset();
    }

    pub fn mem_start(&self) -> (r: usize)
        ensures
            r == self.start,
    {
        self.start
    }

    pub fn mem_end(&self) -> (r: usize)
        requires
            self.wf(),
        ensures
            r == self.start + self.size,
    {
        self.start + self.size
    }

    pub fn num_regions(&self) -> (r: usize)
        ensures
            r == self.opts.region_count,
    {
        self.opts.region_count
    }

    /// Gives back the memory of regions that have been empty since before `shrink_before`,
    /// from the end of the heap on, as long as `shrink_until` bytes stay committed. Tells
    /// how many there were.
    pub fn entry_uncommit(&mut self, shrink_before: u64, shrink_until: usize) -> (r: usize)
        requires
            old(self).wf(),
            shrink_until + old(self).opts.region_size_bytes <= usize::MAX,
        ensures
            final(self).wf(),
            ({
                let size = old(self).opts.region_size_bytes as int;
                let list = uncommitted(
                    old(self).regions@,
                    old(self).regions@.len() as int,
                    old(self).counters.commited as int,
                    shrink_before,
                    shrink_until as int,
                    size,
                );
                &&& r == list.len()
                &&& final(self).counters.commited == old(self).counters.commited - list.len()
                    * size
                &&& final(self).counters.actions@ == old(self).counters.actions@ + decommits(
                    old(self).regions@,
                    list,
                    size,
                )
                &&& forall|i: int|
                    0 <= i < old(self).regions@.len() ==> {
                        let before = old(self).regions@[i];
                        let after = #[trigger] final(self).regions@[i];
                        if list.contains(i) {
                            after.typ == RegionState::EmptyUncommited && after.same_place(&before)
                        } else {
                            after == before
                        }
                    }
            }),
            final(self).counters.used == old(self).counters.used,
            final(self).counters.bytes_allocated_since_gc_start == old(self).counters.bytes_allocated_since_gc_start,
            *final(self) == (Heap {
                regions: final(self).regions,
                counters: final(self).counters,
                ..*old(self)
            }),
    {
        let ghost size = self.opts.region_size_bytes as int;
        let ghost before = self.regions@;
        let ghost commited = self.counters.commited as int;
        let ghost actions = self.counters.actions@;
        let ghost all = uncommitted(
            before,
            before.len() as int,
            commited,
            shrink_before,
            shrink_until as int,
            size,
        );
        let ghost mut done = Seq::<int>::empty();
        let mut i: usize = self.regions.len();
        let mut count: usize = 0;
        let mut more: bool = true;
        assert(actions + decommits(before, done, size) =~= actions);
        while more && i > 0
            invariant
                self.wf(),
                i <= before.len(),
                before.len() == self.regions@.len(),
                before == old(self).regions@,
                size == self.opts.region_size_bytes,
                size == old(self).opts.region_size_bytes,
                shrink_until + size <= usize::MAX,
                commited == old(self).counters.commited,
                actions == old(self).counters.actions@,
                count == done.len(),
                count + i <= before.len(),
                self.counters.commited == commited - done.len() * size,
                self.counters.actions@ == actions + decommits(before, done, size),
                self.counters.used == old(self).counters.used,
                self.counters.bytes_allocated_since_gc_start == old(self).counters.bytes_allocated_since_gc_start,
                *self == (Heap { regions: self.regions, counters: self.counters, ..*old(self) }),
                forall|k: int| #[trigger] done.contains(k) ==> i <= k < before.len(),
                forall|k: int| 0 <= k < i ==> (#[trigger] self.regions@[k]) == before[k],
                forall|k: int|
                    i <= k < before.len() ==> {
                        let after = #[trigger] self.regions@[k];
                        if done.contains(k) {
                            after.typ == RegionState::EmptyUncommited && after.same_place(
                                &before[k],
                            )
                        } else {
                            after == before[k]
                        }
                    },
                all == done + (if more {
                    uncommitted(
                        before,
                        i as int,
                        commited - done.len() * size,
                        shrink_before,
                        shrink_until as int,
                        size,
                    )
                } else {
                    Seq::<int>::empty()
                }),
            decreases
                    i,
                    (if more {
                        1int
                    } else {
                        0int
                    }),
        {
            let ghost rest = uncommitted(
                before,
                i as int,
                commited - done.len() * size,
                shrink_before,
                shrink_until as int,
                size,
            );
            i = i - 1;
            assert(self.regions@[i as int] == before[i as int]);
            assert(self.regions@[i as int].wf());
            if self.regions[i].is_empty_commited() && self.regions[i].empty_time()
                < shrink_before {
                if self.counters.commited < shrink_until + self.opts.region_size_bytes {
                    more = false;
                    i = i + 1;
                    assert(all =~= done + Seq::<int>::empty());
                } else {
                    let ghost regions0 = self.regions@;
                    let ghost actions0 = self.counters.actions@;
                    self.regions[i].do_decommit(&mut self.counters);
                    count = count + 1;
                    proof {
                        let next = done.push(i as int);
                        assert((done.len() + 1) * size == done.len() * size + size)
                            by (nonlinear_arith);
                        assert(decommits(before, next, size) =~= decommits(
                            before,
                            done,
                            size,
                        ).push(
                            VmAction::Decommit {
                                start: before[i as int].begin,
                                size: size as usize,
                            },
                        ));
                        assert(actions + decommits(before, next, size) =~= actions0.push(
                            VmAction::Decommit {
                                start: before[i as int].begin,
                                size: size as usize,
                            },
                        ));
                        assert(seq![i as int] + rest.skip(1) =~= rest);
                        assert(all =~= next + rest.skip(1));
                        assert(rest.skip(1) =~= uncommitted(
                            before,
                            i as int,
                            commited - next.len() * size,
                            shrink_before,
                            shrink_until as int,
                            size,
                        ));
                        assert forall|k: int| #[trigger] next.contains(k) implies i <= k
                            < before.len() by {
                            if k != i {
                                let w = choose|w: int| 0 <= w < next.len() && next[w] == k;
                                assert(done[w] == k);
                                assert(done.contains(k));
                            }
                        }
                        assert forall|k: int| i <= k < before.len() implies ({
                            let after = #[trigger] self.regions@[k];
                            if next.contains(k) {
                                after.typ == RegionState::EmptyUncommited && after.same_place(
                                    &before[k],
                                )
                            } else {
                                after == before[k]
                            }
                        }) by {
                            if k == i {
                                assert(next[next.len() - 1] == k);
                            } else {
                                assert(self.regions@[k] == regions0[k]);
                                if done.contains(k) {
                                    let w = choose|w: int| 0 <= w < done.len() && done[w] == k;
                                    assert(next[w] == k);
                                } else if next.contains(k) {
                                    let w = choose|w: int| 0 <= w < next.len() && next[w] == k;
                                    assert(done[w] == k);
                                }
                            }
                        }
                        done = next;
                    }
                }
            }
        }
        proof {
            assert(all =~= done);
            assert forall|k: int| 0 <= k < before.len() && k < i implies !done.contains(k) by {}
        }
        count
    }

    /// The number of the region of an address.
    pub fn region_index(&self, object: usize) -> (r: usize)
        requires
            self.opts.wf(),
            self.start <= object,
        ensures
            r == self.region_of(object as int),
    {
        let offset: usize = object - self.start;
        proof {
            vstd::bits::lemma_usize_shr_is_div(offset, self.opts.region_size_bytes_shift);
        }
        offset >> self.opts.region_size_bytes_shift
    }

    /// Whether an address lies in the heap.
    pub fn is_in(&self, addr: usize) -> (r: bool)
        requires
            self.wf(),
        ensures
            r == (self.start <= addr < self.start + self.size),
    {
        addr >= self.start && addr < self.start + self.size
    }

    pub fn max_capacity(&self) -> (r: usize)
        requires
            self.wf(),
        ensures
            r == self.size,
            r == self.regions@.len() * self.opts.region_size_bytes,
    {
        self.regions.len() * self.opts.region_size_bytes
    }

    /// The most that a local buffer can be allocated with.
    pub fn max_tlab_alloc(&self) -> (r: usize)
        requires
            self.free_set.fits(self.regions@, self.opts),
        ensures
            self.opts.elastic_tlab ==> r == self.opts.max_tlab_size,
            !self.opts.elastic_tlab ==> exists|free: int| #[trigger]
                self.free_set.largest_offer(self.regions@, self.opts, free) && r == if free
                    < self.opts.max_tlab_size {
                    free
                } else {
                    self.opts.max_tlab_size as int
                },
    {
        if self.opts.elastic_tlab {
            self.opts.max_tlab_size
        } else {
            let free: usize = self.free_set.unsafe_peek_free(&self.regions, &self.opts);
            assert(self.free_set.largest_offer(self.regions@, self.opts, free as int));
            if free < self.opts.max_tlab_size {
                free
            } else {
                self.opts.max_tlab_size
            }
        }
    }

    pub fn tlab_capacity(&self) -> (r: usize)
        ensures
            r == self.free_set.capacity,
    {
        self.free_set.capacity()
    }

    /// Cleans all cards, or ages them: a dirty card becomes an aged one, and any other a
    /// clean one.
    pub fn process_cards(&mut self, clear: bool)
        requires
            old(self).wf(),
            !clear ==> old(self).card_table.card(old(self).start as int) % 8 == 0,
            !clear ==> old(self).card_table.card(old(self).start + old(self).size) % 8 == 0,
        ensures
            final(self).wf(),
            final(self).card_table.same_map(&old(self).card_table),
            forall|k: int|
                0 <= k < old(self).card_table@.len() ==> (#[trigger] final(self).card_table@[k])
                    == if old(self).card_table.card(old(self).start as int) <= k < old(self).card_table.card(old(self).start + old(self).size) {
                    if !clear && old(self).card_table@[k] == CardTable::CARD_DIRTY {
                        CardTable::CARD_AGED
                    } else {
                        CardTable::CARD_CLEAN
                    }
                } else {
                    old(self).card_table@[k]
                },
            *final(self) == (Heap { card_table: final(self).card_table, ..*old(self) }),
    {
        let end: usize = self.start + self.size;
        if clear {
            self.card_table.clear_card_range(self.start, end);
        } else {
            let ghost before = self.card_table;
            let changes: Vec<(usize, u8, u8)> = self.card_table.modify_cards_atomic(
                self.start,
                end,
                age_card_visitor,
            );
            proof {
                let b = before.card(self.start as int);
                let e = before.card(end as int);
                assert(word_up(b) == b && word_up(e) == e);
                assert forall|k: int| 0 <= k < before@.len() implies (
                #[trigger] self.card_table@[k]) == if b <= k < e {
                    if before@[k] == CardTable::CARD_DIRTY {
                        CardTable::CARD_AGED
                    } else {
                        CardTable::CARD_CLEAN
                    }
                } else {
                    before@[k]
                } by {
                    if b <= k < e {
                        let w = super::card_table::word_down(k);
                        if !super::card_table::word_used(before@, w) {
                            assert(w <= k < w + 8);
                            assert(before@[k] == 0);
                        }
                    }
                }
            }
        }
    }

    /// Forgets all marks, before a cycle.
    pub fn prepare_gc(&mut self)
        requires
            old(self).wf(),
        ensures
            final(self).wf(),
            final(self).marking_context.bits().same_shape(&old(self).marking_context.bits()),
            final(self).marking_context.bits().slots() == Set::<int>::empty(),
            final(self).marking_context.queues() == old(self).marking_context.queues(),
            final(self).marking_context.complete() == old(self).marking_context.complete(),
            *final(self) == (Heap { marking_context: final(self).marking_context, ..*old(self) }),
    {
        self.reset_mark_bitmap();
    }

    pub fn reset_mark_bitmap(&mut self)
        requires
            old(self).wf(),
        ensures
            final(self).wf(),
            final(self).marking_context.bits().same_shape(&old(self).marking_context.bits()),
            final(self).marking_context.bits().slots() == Set::<int>::empty(),
            final(self).marking_context.queues() == old(self).marking_context.queues(),
            final(self).marking_context.complete() == old(self).marking_context.complete(),
            *final(self) == (Heap { marking_context: final(self).marking_context, ..*old(self) }),
    {
        self.marking_context.clear_bitmap_full();
    }

    /// Notes that an object starts at an address. In a region that begins a humongous
    /// object there is nothing to note.
    pub fn mark_live(&mut self, addr: usize)
        requires
            old(self).wf(),
            old(self).start <= addr < old(self).start + old(self).size,
        ensures
            ({
                let i = old(self).region_of(addr as int);
                let before = old(self).regions@[i];
                let after = final(self).regions@[i];
                &&& final(self).regions@ == old(self).regions@.update(i, after)
                &&& if before.typ == RegionState::HumongousStart {
                    after == before
                } else {
                    &&& after == (HeapRegion {
                        object_start_bitmap: after.object_start_bitmap,
                        ..before
                    })
                    &&& after.object_start_bitmap.same_shape(&before.object_start_bitmap)
                    &&& after.object_start_bitmap.slots()
                        == before.object_start_bitmap.slots().insert(
                        before.object_start_bitmap.slot(addr as int),
                    )
                }
            }),
            *final(self) == (Heap { regions: final(self).regions, ..*old(self) }),
    {
        proof {
            self.lemma_region_of(addr as int);
        }
        let index: usize = self.region_index(addr);
        let ghost regions = self.regions@;
        if self.regions[index].is_humongous_start() {
            assert(self.regions@ =~= regions.update(index as int, regions[index as int]));
            return;
        }
        proof {
            let region = self.regions@[index as int];
            assert(region.wf());
            region.object_start_bitmap.lemma_covers_range(addr as int);
        }
        self.regions[index].object_start_bitmap.set_bit(addr);
    }

    /// Whether there is an object at an address that a region outside the heap's own
    /// memory would hold: addresses of the heap are answered with no.
    pub fn is_live(&self, addr: usize) -> (r: bool)
        requires
            self.wf(),
            self.start <= addr,
            addr >= self.start + self.size ==> {
                let i = self.region_of(addr as int);
                &&& i < self.regions@.len()
                &&& self.regions@[i].object_start_bitmap.covers(addr as int)
            },
        ensures
            r == (addr >= self.start + self.size && {
                let region = self.regions@[self.region_of(addr as int)];
                ||| region.typ == RegionState::HumongousStart
                ||| region.typ == RegionState::HumongousCont
                ||| region.object_start_bitmap.slots().contains(
                    region.object_start_bitmap.slot(addr as int),
                )
            }),
    {
        if self.is_in(addr) {
            return false;
        }
        let index: usize = self.region_index(addr);
        if self.regions[index].is_humongous_start() {
            return true;
        }
        if self.regions[index].is_humongous_cont() {
            return true;
        }
        self.regions[index].object_start_bitmap.check_bit(addr)
    }

    /// The first region of the humongous object that region `i` belongs to.
    pub fn get_humongous_start(&self, i: usize) -> (r: usize)
        requires
            i < self.regions@.len(),
            has_humongous_start(self.regions@, i as int),
        ensures
            r == humongous_start(self.regions@, i as int),
            self.regions@[r as int].typ == RegionState::HumongousStart,
            r <= i,
            forall|j: int|
                r < j <= i ==> (#[trigger] self.regions@[j]).typ != RegionState::HumongousStart,
    {
        let mut k: usize = i;
        proof {
            lemma_humongous_start(self.regions@, i as int);
        }
        while !self.regions[k].is_humongous_start()
            invariant
                k <= i,
                i < self.regions@.len(),
                has_humongous_start(self.regions@, k as int),
                humongous_start(self.regions@, k as int) == humongous_start(
                    self.regions@,
                    i as int,
                ),
            decreases k,
        {
            k = k - 1;
        }
        k
    }

    /// If an address lies in a later region of a large object, the region that the
    /// object starts in is known.
    pub open spec fn starts_known(&self, addr: int) -> bool {
        self.start <= addr < self.start + self.size && self.regions@[self.region_of(addr)].typ
            == RegionState::HumongousCont ==> has_humongous_start(
            self.regions@,
            self.region_of(addr),
        )
    }

    /// `r` is the start of the object that an address points into, or zero if it
    /// points into none.
    pub open spec fn is_object_start(&self, addr: int, r: int) -> bool {
        if !(self.start <= addr < self.start + self.size) {
            r == 0
        } else {
            let i = self.region_of(addr);
            let region = self.regions@[i];
            let bits = region.object_start_bitmap;
            if region.typ == RegionState::HumongousStart {
                r == region.begin
            } else if region.typ == RegionState::HumongousCont {
                r == self.regions@[humongous_start(self.regions@, i)].begin
            } else {
                let last = (addr - region.begin) / 16;
                ||| r == 0 && (forall|n: int| 0 <= n <= last ==> !bits.slots().contains(n))
                ||| exists|n: int|
                    #![trigger bits.slots().contains(n)]
                    {
                        &&& 0 <= n <= last
                        &&& bits.slots().contains(n)
                        &&& r == region.begin + n * 16
                        &&& forall|m: int| n < m <= last ==> !bits.slots().contains(m)
                    }
            }
        }
    }

    /// The start of the object that an address points into, or zero.
    pub fn object_start(&self, addr: usize) -> (r: usize)
        requires
            self.wf(),
            self.starts_known(addr as int),
        ensures
            self.is_object_start(addr as int, r as int),
    {
        if !self.is_in(addr) {
            return 0;
        }
        proof {
            self.lemma_region_of(addr as int);
        }
        let index: usize = self.region_index(addr);
        if self.regions[index].is_humongous_start() {
            return self.regions[index].bottom();
        }
        if self.regions[index].is_humongous_cont() {
            let start: usize = self.get_humongous_start(index);
            return self.regions[start].bottom();
        }
        proof {
            let region = self.regions@[index as int];
            assert(region.wf());
            region.object_start_bitmap.lemma_covers_range(addr as int);
        }
        self.regions[index].object_start_bitmap.find_object_start(addr)
    }

    /// Notes that a mutator has allocated.
    pub fn notify_mutator_alloc(&mut self, bytes: usize)
        ensures
            final(self).counters.bytes_allocated_since_gc_start
                == old(self).counters.bytes_allocated_since_gc_start.wrapping_add(bytes),
            *final(self) == (Heap { counters: final(self).counters, ..*old(self) }),
            final(self).counters == (HeapCounters {
                bytes_allocated_since_gc_start: final(self).counters.bytes_allocated_since_gc_start,
                ..old(self).counters
            }),
    {
        self.counters.bytes_allocated_since_gc_start =
        self.counters.bytes_allocated_since_gc_start.wrapping_add(bytes);
    }

    /// Tries to allocate. If there is no memory, the control thread is told, and the caller
    /// has to wait for a cycle and to try again, up to a few times. Once the allocation has
    /// ended, the control thread learns whether the heap has changed.
    pub fn allocate_memory(
        &mut self,
        controller: &mut ControlThread,
        req: &mut AllocRequest,
        state: &mut AllocTries,
        now: u64,
    ) -> (r: AllocStep)
        requires
            old(controller).wf(),
            old(self).free_set.fits(old(self).regions@, old(self).opts),
            old(self).free_set.max > 0,
            old(req).spec_size() + old(self).opts.region_size_bytes <= usize::MAX,
            old(self).free_set.used + old(self).regions@.len() * old(self).opts.region_size_bytes
                <= usize::MAX,
            old(self).free_set.used + old(self).regions@.len()
                * old(self).opts.region_payload_size_bytes <= usize::MAX,
            old(self).counters.commited + old(self).regions@.len()
                * old(self).opts.region_size_bytes <= usize::MAX,
            old(self).counters.bytes_allocated_since_gc_start + old(self).regions@.len()
                * old(self).opts.region_size_bytes <= usize::MAX,
            forall|i: int|
                0 <= i < old(self).regions@.len() ==> (#[trigger] old(self).regions@[i]).used
                    + old(req).spec_size() <= usize::MAX,
        ensures
            final(controller).wf(),
            final(self).free_set.fits(final(self).regions@, final(self).opts),
            exists|addr: usize, mid: HeapCounters| #[trigger]
                allocation(
                    *old(self),
                    *final(self),
                    *old(req),
                    *final(req),
                    mid,
                    old(state).in_new_region,
                    final(state).in_new_region,
                    addr,
                    now,
                ) && ({
                    let waits = addr == 0 && old(state).tries <= 3;
                    &&& r == if waits {
                        AllocStep::Wait
                    } else {
                        AllocStep::Done { addr }
                    }
                    &&& final(state).tries == if waits {
                        old(state).tries + 1
                    } else {
                        old(state).tries as int
                    }
                    &&& final(controller).view() == if waits {
                        ControlView { failure: true, ..old(controller).view() }
                    } else if final(state).in_new_region {
                        ControlView { changed: true, ..old(controller).view() }
                    } else {
                        old(controller).view()
                    }
                    &&& final(self).counters.bytes_allocated_since_gc_start == if addr != 0 {
                        mid.bytes_allocated_since_gc_start.wrapping_add(
                            final(req).spec_actual_size(),
                        )
                    } else {
                        mid.bytes_allocated_since_gc_start
                    }
                    &&& addr != 0 && old(req).spec_type() != AllocType::ForLAB
                        ==> final(req).spec_actual_size() == old(req).spec_size()
                }),
    {
        let ghost before = *self;
        let addr: usize = self.free_set.allocate(
            &mut self.regions,
            &self.opts,
            &mut self.counters,
            req,
            &mut state.in_new_region,
            now,
        );
        let ghost mid = self.counters;
        proof {
            assert(allocation(
                before,
                *self,
                *old(req),
                *req,
                mid,
                old(state).in_new_region,
                state.in_new_region,
                addr,
                now,
            ));
        }
        if addr == 0 && state.tries <= MAX_ALLOCATION_TRIES {
            state.tries = state.tries + 1;
            let first: bool = controller.handle_alloc_failure_gc();
            proof {
                assert(controller.view() == (ControlView {
                    failure: true,
                    ..old(controller).view()
                }));
                assert(allocation(
                    before,
                    *self,
                    *old(req),
                    *req,
                    mid,
                    old(state).in_new_region,
                    state.in_new_region,
                    addr,
                    now,
                ));
            }
            return AllocStep::Wait;
        }
        if state.in_new_region {
            controller.notify_heap_changed();
        }
        if addr != 0 {
            self.notify_mutator_alloc(req.actual_size());
            proof {
                assert(allocation(
                    before,
                    *self,
                    *old(req),
                    *req,
                    mid,
                    old(state).in_new_region,
                    state.in_new_region,
                    addr,
                    now,
                ));
            }
        }
        AllocStep::Done { addr }
    }

    /// Asks for a cycle to be cancelled. Tells whether this call cancelled it, or nothing
    /// if a thread of the collector forbids it for now, and the caller has to try again.
    pub fn try_cancel_gc(&mut self) -> (r: Option<bool>)
        requires
            old(self).cancelled_gc <= 2,
        ensures
            r == if old(self).cancelled_gc == GC_CANCELLABLE {
                Some(true)
            } else if old(self).cancelled_gc == GC_CANCELLED {
                Some(false)
            } else {
                None::<bool>
            },
            *final(self) == (Heap {
                cancelled_gc: if old(self).cancelled_gc == GC_CANCELLABLE {
                    GC_CANCELLED
                } else {
                    old(self).cancelled_gc
                },
                ..*old(self)
            }),
    {
        if self.cancelled_gc == GC_CANCELLABLE {
            self.cancelled_gc = GC_CANCELLED;
            Some(true)
        } else if self.cancelled_gc == GC_CANCELLED {
            Some(false)
        } else {
            None
        }
    }

    pub fn cancelled_gc(&self) -> (r: bool)
        ensures
            r == (self.cancelled_gc == GC_CANCELLED),
    {
        self.cancelled_gc == GC_CANCELLED
    }

    /// Asks whether a thread of the collector may let others run.
    pub fn check_cancelled_gc_and_yield(&mut self, sts_active: bool) -> (r: YieldCheck)
        requires
            old(self).cancelled_gc <= 2,
        ensures
            r == if !sts_active || old(self).cancelled_gc == GC_CANCELLED {
                YieldCheck::Go { cancelled: old(self).cancelled_gc == GC_CANCELLED }
            } else {
                YieldCheck::MayYield { restore: old(self).cancelled_gc == GC_CANCELLABLE }
            },
            *final(self) == (Heap {
                cancelled_gc: if sts_active && old(self).cancelled_gc == GC_CANCELLABLE {
                    GC_NOT_CANCELLED
                } else {
                    old(self).cancelled_gc
                },
                ..*old(self)
            }),
    {
        if !sts_active {
            return YieldCheck::Go { cancelled: self.cancelled_gc() };
        }
        let prev: u8 = self.cancelled_gc;
        if prev == GC_CANCELLABLE {
            self.cancelled_gc = GC_NOT_CANCELLED;
        }
        if prev == GC_CANCELLABLE || prev == GC_NOT_CANCELLED {
            return YieldCheck::MayYield { restore: prev == GC_CANCELLABLE };
        }
        YieldCheck::Go { cancelled: true }
    }

    /// Ends the pause of a thread that let others run.
    pub fn end_yield(&mut self, restore: bool)
        ensures
            *final(self) == (Heap {
                cancelled_gc: if restore {
                    GC_CANCELLABLE
                } else {
                    old(self).cancelled_gc
                },
                ..*old(self)
            }),
    {
        if restore {
            self.cancelled_gc = GC_CANCELLABLE;
        }
    }

    pub fn clear_cancelled_gc(&mut self)
        ensures
            *final(self) == (Heap { cancelled_gc: GC_CANCELLABLE, ..*old(self) }),
    {
        self.cancelled_gc = GC_CANCELLABLE;
    }

    /// Does something to every region.
    pub fn heap_region_iterate<C: HeapRegionClosure>(&mut self, blk: &C)
        ensures
            final(self).regions@.len() == old(self).regions@.len(),
            forall|i: int|
                0 <= i < old(self).regions@.len() ==> blk.turns(
                    old(self).regions@[i],
                    #[trigger] final(self).regions@[i],
                ),
            *final(self) == (Heap { regions: final(self).regions, ..*old(self) }),
    {
        let ghost before = self.regions@;
        let mut i: usize = 0;
        while i < self.regions.len()
            invariant
                i <= self.regions@.len(),
                before == old(self).regions@,
                self.regions@.len() == before.len(),
                forall|k: int|
                    0 <= k < i ==> blk.turns(before[k], #[trigger] self.regions@[k]),
                forall|k: int| i <= k < before.len() ==> (#[trigger] self.regions@[k]) == before[k],
                *self == (Heap { regions: self.regions, ..*old(self) }),
            decreases self.regions@.len() - i,
        {
            let ghost regions0 = self.regions@;
            assert(regions0[i as int] == before[i as int]);
            blk.heap_region_do(&mut self.regions[i]);
            proof {
                assert forall|k: int| 0 <= k < i + 1 implies blk.turns(
                    before[k],
                    #[trigger] self.regions@[k],
                ) by {
                    if k < i {
                        assert(self.regions@[k] == regions0[k]);
                    }
                }
            }
            i = i + 1;
        }
    }

    /// Whether the regions are handed out to workers, and not visited one after the other.
    pub fn iterates_in_parallel(&self, workers: usize) -> (r: bool)
        ensures
            r == (self.opts.region_count > self.opts.parallel_region_stride && workers != 0),
    {
        self.num_regions() > self.opts.parallel_region_stride && workers != 0
    }
}

proof fn lemma_sixteen(opts: HeapOptions)
    requires
        opts.wf(),
        16 <= opts.region_size_bytes,
    ensures
        opts.region_size_bytes % 16 == 0,
{
    let k = opts.region_size_bytes_shift as nat;
    vstd::arithmetic::power2::lemma2_to64();
    if k < 4 {
        vstd::arithmetic::power2::lemma_pow2_strictly_increases(k, 4);
    }
    vstd::arithmetic::power2::lemma_pow2_adds(4, (k - 4) as nat);
    let rest = vstd::arithmetic::power2::pow2((k - 4) as nat) as int;
    assert((16 * rest) % 16 == 0) by (nonlinear_arith);
}

proof fn lemma_sixteen_times(i: int, size: int)
    requires
        size % 16 == 0,
    ensures
        (i * size) % 16 == 0,
        size * i == i * size,
{
    let q = size / 16;
    assert(i * size == (i * q) * 16) by (nonlinear_arith)
        requires
            size == 16 * q,
    ;
    vstd::arithmetic::div_mod::lemma_mod_multiples_basic(i * q, 16);
    assert(size * i == i * size) by (nonlinear_arith);
}

/// Hands the regions out to workers, some at a time.
#[derive(Clone, Copy, PartialEq, Eq, Debug, Structural)]
pub struct ParallelHeapRegionTask {
    pub index: usize,
}

/// The pieces that regions are handed out in, from region `from` on.
pub open spec fn pieces(from: int, max: int, stride: int) -> Seq<(int, int)>
    decreases max - from,
{
    if from >= max || stride <= 0 {
        Seq::empty()
    } else if from + stride >= max {
        seq![(from, max)]
    } else {
        seq![(from, from + stride)] + pieces(from + stride, max, stride)
    }
}

/// Every region is handed out exactly once.
pub proof fn lemma_pieces(from: int, max: int, stride: int, i: int)
    requires
        stride > 0,
        from <= i < max,
    ensures
        exists|k: int|
            0 <= k < pieces(from, max, stride).len() && in_piece(pieces(from, max, stride), k, i),
        forall|k: int, l: int|
            0 <= k < pieces(from, max, stride).len() && 0 <= l < pieces(from, max, stride).len()
                && #[trigger] in_piece(pieces(from, max, stride), k, i) && #[trigger] in_piece(
                pieces(from, max, stride),
                l,
                i,
            ) ==> k == l,
    decreases max - from,
{
    let all = pieces(from, max, stride);
    if from + stride >= max {
        assert(in_piece(all, 0, i));
    } else {
        let rest = pieces(from + stride, max, stride);
        lemma_pieces_above(from + stride, max, stride);
        assert forall|k: int| 0 < k < all.len() implies #[trigger] all[k] == rest[k - 1] by {}
        if i < from + stride {
            assert(in_piece(all, 0, i));
            assert forall|k: int| 0 < k < all.len() implies !#[trigger] in_piece(all, k, i) by {
                assert(rest[k - 1].0 >= from + stride);
            }
        } else {
            lemma_pieces(from + stride, max, stride, i);
            let w = choose|w: int| 0 <= w < rest.len() && in_piece(rest, w, i);
            assert(in_piece(all, w + 1, i));
            assert forall|k: int, l: int|
                0 <= k < all.len() && 0 <= l < all.len() && #[trigger] in_piece(all, k, i)
                    && #[trigger] in_piece(all, l, i) implies k == l by {
                assert(k > 0 && l > 0);
                assert(in_piece(rest, k - 1, i));
                assert(in_piece(rest, l - 1, i));
            }
        }
    }
}

/// Whether a region is in a piece.
pub open spec fn in_piece(all: Seq<(int, int)>, k: int, i: int) -> bool {
    all[k].0 <= i < all[k].1
}

proof fn lemma_pieces_above(from: int, max: int, stride: int)
    requires
        stride > 0,
    ensures
        forall|k: int|
            0 <= k < pieces(from, max, stride).len() ==> (#[trigger] pieces(
                from,
                max,
                stride,
            )[k]).0 >= from,
    decreases max - from,
{
    if from < max && from + stride < max {
        let all = pieces(from, max, stride);
        let rest = pieces(from + stride, max, stride);
        lemma_pieces_above(from + stride, max, stride);
        assert forall|k: int| 0 <= k < all.len() implies (#[trigger] all[k]).0 >= from by {
            if k > 0 {
                assert(all[k] == rest[k - 1]);
            }
        }
    }
}

impl ParallelHeapRegionTask {
    pub fn new() -> (r: Self)
        ensures
            r.index == 0,
    {
        ParallelHeapRegionTask { index: 0 }
    }

    /// The next piece, if there is one.
    pub fn next(&mut self, stride: usize, max: usize) -> (r: Option<(usize, usize)>)
        requires
            0 < stride,
            max + stride <= usize::MAX,
        ensures
            ({
                let left = pieces(old(self).index as int, max as int, stride as int);
                if left.len() == 0 {
                    r is None && *final(self) == *old(self)
                } else {
                    &&& r matches Some((a, b)) && (a as int, b as int) == left[0]
                    &&& pieces(final(self).index as int, max as int, stride as int)
                        == left.skip(1)
                }
            }),
    {
        let ghost left = pieces(self.index as int, max as int, stride as int);
        if self.index < max {
            let cur: usize = self.index;
            self.index = cur + stride;
            let end: usize = if cur + stride < max {
                cur + stride
            } else {
                max
            };
            assert(pieces(self.index as int, max as int, stride as int) =~= left.skip(1));
            Some((cur, end))
        } else {
            None
        }
    }
}

/// Hands the regions out to workers, some at a time, until the cycle is cancelled.
#[derive(Clone, Copy, PartialEq, Eq, Debug, Structural)]
pub struct ParallelHeapRegionTaskWithCancellationCheck {
    pub task: ParallelHeapRegionTask,
}

impl ParallelHeapRegionTaskWithCancellationCheck {
    pub fn new() -> (r: Self)
        ensures
            r.task.index == 0,
    {
        ParallelHeapRegionTaskWithCancellationCheck { task: ParallelHeapRegionTask::new() }
    }

    /// The next piece, if there is one and the cycle has not been cancelled. A piece that
    /// is not handed out because of that is never handed out.
    pub fn next(&mut self, stride: usize, max: usize, cancelled: bool) -> (r: Option<
        (usize, usize),
    >)
        requires
            0 < stride,
            max + stride <= usize::MAX,
        ensures
            ({
                let left = pieces(old(self).task.index as int, max as int, stride as int);
                if left.len() == 0 {
                    r is None && *final(self) == *old(self)
                } else {
                    &&& cancelled ==> r is None
                    &&& !cancelled ==> (r matches Some((a, b)) && (a as int, b as int)
                        == left[0])
                    &&& pieces(final(self).task.index as int, max as int, stride as int)
                        == left.skip(1)
                }
            }),
    {
        let piece: Option<(usize, usize)> = self.task.next(stride, max);
        if cancelled {
            return None;
        }
        piece
    }
}

/// The words of a stack between two addresses, whichever way it grows: where they start,
/// and how many there are.
pub fn stack_words(stack_start: usize, stack_end: usize) -> (r: (usize, usize))
    ensures
        r.0 == if stack_start > stack_end {
            stack_end
        } else {
            stack_start
        },
        r.1 == (if stack_start > stack_end {
            stack_start - stack_end
        } else {
            stack_end - stack_start
        }) / 8,
{
    if stack_start > stack_end {
        (stack_end, (stack_start - stack_end) / 8)
    } else {
        (stack_start, (stack_end - stack_start) / 8)
    }
}

} // verus!
