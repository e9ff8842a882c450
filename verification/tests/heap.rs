use rsgc::array::Array;
use rsgc::base::stack::StackBounds;
use rsgc::heap::concurrent_gc::ConcMark;
use rsgc::heap::concurrent_thread::ConcurrentGCThread;
use rsgc::heap::controller::{ControlThread, GCMode, ServiceAction};
use rsgc::heap::deque::Taken;
use rsgc::heap::free_list::FreeList;
use rsgc::heap::heap::{
    stack_words, AllocStep, AllocTries, Heap, ParallelHeapRegionTask,
    ParallelHeapRegionTaskWithCancellationCheck, YieldCheck,
};
use rsgc::heap::heuristics::static_::StaticHeuristics;
use rsgc::heap::heuristics::CycleHistory;
use rsgc::heap::marking_context::MarkingContext;
use rsgc::heap::obj_storage::{Block, ObjStorage};
use rsgc::heap::pacer::Pacer;
use rsgc::heap::region::{HeapArguments, HeapOptions, HeapRegion, RegionState, Setting};
use rsgc::heap::root_processor::conservative;
use rsgc::heap::safepoint::{PageAction, Safepoint};
use rsgc::heap::shared_vars::SharedFlag;
use rsgc::heap::sweeper::Sweep;
use rsgc::heap::thread::{object_size, BarrierMode, RawStep, Thread, Threads, OOM};
use rsgc::heap::timer::{GCPhase, GCTimer, PhaseType, PhaseVisitor, PhasesStack};
use rsgc::heap::tlab::ThreadLocalAllocBuffer;
use rsgc::heap::tracer::{GCCause, SharedGCInfo};
use rsgc::heap::{AllocRequest, AllocType};

const MEM: usize = 1 << 30;

fn options() -> HeapOptions {
    let mut args = HeapArguments::default(4096, 4);
    args.set(Setting::MaxHeapSize, 32 * 1024 * 1024);
    HeapRegion::setup_sizes(&args, 4096)
}

fn heap() -> Heap {
    let opts = options();
    let size = opts.max_heap_size;
    Heap::new(size, 0, opts, MEM, 1 << 21, size / 1024 + 4096, 4096, 0).0
}

fn allocate(heap: &mut Heap, req: &mut AllocRequest) -> usize {
    let mut controller = ControlThread::new(&options(), 0);
    let mut tries = AllocTries { tries: 0, in_new_region: false };
    match heap.allocate_memory(&mut controller, req, &mut tries, 0) {
        AllocStep::Done { addr } => addr,
        AllocStep::Wait => 0,
    }
}

#[test]
fn regions_fill_the_heap() {
    let opts = options();
    assert_eq!(opts.region_count * opts.region_size_bytes, opts.max_heap_size);
    assert!(opts.max_heap_size >= 32 * 1024 * 1024);
    assert!(opts.region_size_bytes.is_power_of_two());
    assert_eq!(opts.humongous_threshold_bytes, opts.humongous_threshold_words * 8);
    assert!(opts.min_tlab_size >= 2048);
}

#[test]
fn a_region_is_found_by_address() {
    let heap = heap();
    let size = heap.options().region_size_bytes;
    assert_eq!(heap.region_index(MEM), 0);
    assert_eq!(heap.region_index(MEM + size - 1), 0);
    assert_eq!(heap.region_index(MEM + 3 * size + 100), 3);
    assert!(heap.is_in(MEM));
    assert!(!heap.is_in(MEM - 1));
    assert!(!heap.is_in(heap.mem_end()));
    assert_eq!(heap.num_regions(), heap.options().region_count);
}

#[test]
fn allocations_are_apart_and_in_the_heap() {
    let mut heap = heap();
    let mut seen = Vec::new();
    for _ in 0..100 {
        let mut req = AllocRequest::new(AllocType::Shared, 64, 64);
        let addr = allocate(&mut heap, &mut req);
        assert!(heap.is_in(addr));
        assert_eq!(addr % 16, 0);
        assert_eq!(req.actual_size(), 64);
        seen.push(addr);
    }
    seen.sort();
    for k in 1..seen.len() {
        assert!(seen[k] - seen[k - 1] >= 64);
    }
}

#[test]
fn a_large_object_gets_regions_of_its_own() {
    let mut heap = heap();
    let size = heap.options().region_size_bytes;
    let mut req = AllocRequest::new(AllocType::Shared, 2 * size + 16, 2 * size + 16);
    let addr = allocate(&mut heap, &mut req);
    assert_ne!(addr, 0);
    let i = heap.region_index(addr);
    assert_eq!(heap.regions[i].state(), RegionState::HumongousStart);
    assert_eq!(heap.regions[i + 1].state(), RegionState::HumongousCont);
    assert_eq!(heap.regions[i + 2].state(), RegionState::HumongousCont);
    assert_eq!(heap.object_start(addr + 2 * size), addr);
    assert_eq!(heap.get_humongous_start(i + 2), i);
}

#[test]
fn words_that_point_into_objects_are_roots() {
    let mut heap = heap();
    let mut req = AllocRequest::new(AllocType::Shared, 64, 64);
    let addr = allocate(&mut heap, &mut req);
    let words = vec![0, 12345, addr + 8, addr + 40];
    assert_eq!(conservative(&heap, &words), vec![addr, addr]);
}

#[test]
fn memory_that_is_too_large_is_refused_after_waiting() {
    let mut heap = heap();
    let size = heap.max_capacity() + 16;
    let mut req = AllocRequest::new(AllocType::Shared, size, size);
    let mut controller = ControlThread::new(&options(), 0);
    let mut tries = AllocTries { tries: 0, in_new_region: false };
    let mut waits = 0;
    while let AllocStep::Wait = heap.allocate_memory(&mut controller, &mut req, &mut tries, 0) {
        waits += 1;
        controller.notify_alloc_failure_waiters();
        assert!(waits < 100);
    }
    assert_eq!(waits, 4);
}

#[test]
fn a_cycle_is_cancelled_once() {
    let mut heap = heap();
    assert!(!heap.cancelled_gc());
    assert_eq!(heap.try_cancel_gc(), Some(true));
    assert_eq!(heap.try_cancel_gc(), Some(false));
    assert!(heap.cancelled_gc());
    assert_eq!(heap.check_cancelled_gc_and_yield(true), YieldCheck::Go { cancelled: true });
    heap.clear_cancelled_gc();
    assert!(!heap.cancelled_gc());
}

#[test]
fn pieces_of_a_region_list_do_not_overlap() {
    let mut task = ParallelHeapRegionTask::new();
    let mut next = 0;
    while let Some((from, to)) = task.next(3, 10) {
        assert_eq!(from, next);
        next = to;
    }
    assert_eq!(next, 10);
    let mut checked = ParallelHeapRegionTaskWithCancellationCheck::new();
    assert_eq!(checked.next(3, 10, false), Some((0, 3)));
    assert_eq!(checked.next(3, 10, true), None);
}

#[test]
fn a_stack_is_read_from_its_lower_end() {
    assert_eq!(stack_words(1000, 1080), (1000, 10));
    assert_eq!(stack_words(1080, 1000), (1000, 10));
}

#[test]
fn a_requested_cycle_is_run_and_answered() {
    let opts = options();
    let mut thread = ControlThread::new(&opts, 0);
    let required = thread.required_gc_id();
    assert!(thread.handle_requested_gc(required));
    let action = thread.run_service(false, 0, &opts);
    assert_eq!(action, ServiceAction::Collect { mode: GCMode::FullSTW });
    let action = thread.run_service(false, 0, &opts);
    assert!(matches!(action, ServiceAction::Sleep { .. }));
    assert!(!thread.handle_requested_gc(required));
    thread.stop();
    while thread.run_service(false, 0, &opts) != ServiceAction::Stop {}
    assert!(thread.has_terminated());
}

#[test]
fn a_failed_allocation_asks_for_one_cycle() {
    let opts = options();
    let mut thread = ControlThread::new(&opts, 0);
    assert!(thread.handle_alloc_failure_gc());
    assert!(!thread.handle_alloc_failure_gc());
    assert!(thread.alloc_failure_pending());
    assert_eq!(
        thread.run_service(false, 0, &opts),
        ServiceAction::Collect { mode: GCMode::FullSTW }
    );
    thread.run_service(false, 0, &opts);
    assert!(!thread.alloc_failure_pending());
}

#[test]
fn free_memory_is_handed_out_again() {
    let opts = options();
    let mut list = FreeList::new(&opts);
    list.add(MEM, 256);
    list.add(MEM + 1024, 64);
    assert_eq!(list.free(), 320);
    assert_eq!(list.peek_free(), 256);
    assert_eq!(list.largest_and_total(), (256, 320));
    let (addr, size) = list.allocate(64);
    assert!((addr, size) == (MEM + 1024, 64) || (addr, size) == (MEM, 256));
    assert_eq!(list.free(), 320 - size);
    assert_eq!(list.largest_and_total().1, 320 - size);
    list.clear();
    assert_eq!(list.free(), 0);
    assert_eq!(list.allocate(16).0, 0);
}

#[test]
fn a_buffer_is_bumped() {
    let opts = options();
    let mut bits = rsgc::heap::bitmap::HeapBitmap::<16>::new(MEM, 65536);
    let mut tlab = ThreadLocalAllocBuffer::new();
    tlab.initialize(&opts);
    tlab.initialize_(MEM, MEM, MEM + 4096);
    assert_eq!(tlab.allocate(64, &mut bits), MEM);
    assert_eq!(tlab.allocate(64, &mut bits), MEM + 64);
    assert!(bits.check_bit(MEM + 64));
    assert_eq!(tlab.allocate(4096, &mut bits), 0);
    let mut list = FreeList::new(&opts);
    tlab.retire(&mut list);
    assert_eq!(list.free(), 4096 - 128);
}

#[test]
fn storage_gives_each_entry_once_until_it_is_released() {
    let mut storage = ObjStorage::new();
    let mut seen = Vec::new();
    for _ in 0..130 {
        let entry = storage.allocate();
        assert!(!seen.contains(&entry));
        seen.push(entry);
    }
    let (block, index) = seen[5];
    storage.release(block, index);
    assert!(storage.blocks[block].check_index(index));
    assert_eq!(storage.blocks[block].allocated_bitmask() >> index & 1, 0);
    storage.releasen(&seen[6..130].to_vec());
    let (block, entries) = storage.allocaten(200);
    assert!(entries.len() <= 64);
    let used = storage.blocks[block].allocated_bitmask();
    assert!(entries.iter().all(|&i| used >> i & 1 == 1));
}

#[test]
fn a_block_of_entries_fills_up() {
    let mut block = Block::new();
    assert!(block.is_empty());
    for k in 0..64 {
        assert_eq!(block.allocate(), k);
    }
    assert!(block.is_full());
    assert_eq!(block.entries(), (0..64).collect::<Vec<usize>>());
    assert!(block.iterate(|i| i < 64));
    assert!(!block.iterate(|i| i != 9));
    assert!(Block::new().iterate(|_| false));
    assert_eq!(block.bitmask_for_entry(4096, 4096 + 24), 8);
    assert_eq!(Block::allocation_size(), 632);
    assert_eq!(Block::allocation_alignment_shift(), 6);
    assert_eq!(block.bitmask_for_index(3), 8);
}

#[test]
fn a_page_is_protected_while_anybody_asks() {
    let mut safepoint = Safepoint::new(8192);
    assert_eq!(safepoint.enable(), PageAction::Protect);
    assert_eq!(safepoint.enable(), PageAction::Keep);
    assert_eq!(safepoint.disable(), PageAction::Keep);
    assert_eq!(safepoint.disable(), PageAction::Unprotect);
    assert!(safepoint.addr_in_safepoint(8192 + 4095));
    assert!(!safepoint.addr_in_safepoint(8192 + 4096));
    assert_eq!(safepoint.enter(), Some(PageAction::Protect));
    assert!(safepoint.wait_gc());
    assert_eq!(safepoint.enter(), None);
    assert_eq!(safepoint.end(), PageAction::Unprotect);
    assert!(!safepoint.wait_gc());
}

#[test]
fn a_flag_is_set_by_one() {
    let mut flag = SharedFlag::new();
    assert!(flag.is_unset());
    assert!(flag.try_set());
    assert!(!flag.try_set());
    assert!(flag.is_set());
    assert!(flag.try_unset());
    assert!(!flag.try_unset());
}

#[test]
fn empty_regions_need_no_sweep() {
    let mut heap = heap();
    let n = heap.num_regions();
    let ctx = MarkingContext::new(MEM, heap.max_capacity(), 1);
    let mut sweep = Sweep::new();
    let contents = (0..n).map(|_| Vec::new()).collect();
    let opts = options();
    assert_eq!(sweep.run(&mut heap.regions, &contents, &ctx, &opts), 0);
}

#[test]
fn recorded_references_become_tasks_when_flushed() {
    let opts = options();
    let mut ctx = MarkingContext::new(MEM, 65536, 1);
    let mut thread =
        Thread::register(1, &opts, StackBounds::from_lowest(4096, 4096), 8000, false);
    thread.raw_write_barrier(&mut ctx, MEM + 64);
    thread.flush_ssb(&mut ctx);
    assert_eq!(ctx.take(0), Taken::Empty);
    thread.toggle_write_barrier(true);
    thread.raw_write_barrier(&mut ctx, MEM + 64);
    thread.flush_ssb(&mut ctx);
    assert_eq!(ctx.take(0), Taken::Task((MEM + 64) as u64));
}

#[test]
fn threads_come_and_go() {
    let mut threads = Threads::new();
    assert!(threads.all_joined());
    threads.add_thread(7);
    threads.add_thread(8);
    threads.remove_thread(7);
    assert!(!threads.all_joined());
    threads.remove_thread(8);
    assert!(threads.all_joined());
}

#[test]
fn an_object_has_its_items_and_a_header() {
    assert_eq!(object_size(24, 0, 0), 32);
    assert_eq!(object_size(16, 8, 3), 48);
}

#[test]
fn pauses_are_summed() {
    let mut timer = GCTimer::new(true, 0);
    timer.register_gc_start(100, 0);
    timer.register_gc_pause_start("one", 100, 0);
    timer.register_gc_pause_end(130);
    timer.register_gc_pause_start("two", 150, 0);
    timer.register_gc_pause_end(160);
    timer.register_gc_end(200);
    assert_eq!(timer.time_partitions().num_phases(), 2);
    assert_eq!(timer.time_partitions().sum_of_pauses(), 40);
    assert_eq!(timer.time_partitions().longest_pause(), 30);
    assert_eq!(timer.time_partitions().phase(0).duration(), 30);
}

#[test]
fn phases_nest() {
    let mut stack = PhasesStack::new();
    stack.push(4);
    stack.push(5);
    assert_eq!(stack.count(), 2);
    assert_eq!(stack.phase_index(0), 4);
    assert_eq!(stack.pop(), 5);
    assert_eq!(stack.pop(), 4);
}

#[test]
fn causes() {
    assert!(GCCause::AllocationFailure.is_allocation_failure());
    assert!(!GCCause::AllocationFailure.is_user_requested());
    assert!(GCCause::Explicit.is_user_requested());
    let mut info = SharedGCInfo::new("cycle", 0);
    info.set_start_timestamp(10);
    info.set_end_timestamp(25);
    assert_eq!(info.duration(), 15);
    assert_eq!(info.name(), "cycle");
}

#[test]
fn a_cycle_is_due_after_the_interval() {
    let opts = options();
    let mut history = CycleHistory::new(0);
    let interval = opts.guaranteed_gc_interval as u64;
    assert!(!history.should_start_gc(interval, &opts));
    assert!(history.should_start_gc(interval + 1, &opts));
    history.record_cycle_start(interval);
    history.record_cycle_end(interval + 5);
    assert!(!history.should_start_gc(interval + 10, &opts));
}

#[test]
fn too_little_memory_starts_a_cycle() {
    let mut opts = options();
    let heuristics = StaticHeuristics::new(&mut opts, 0);
    let max = opts.max_heap_size;
    assert!(heuristics.should_start_gc(max, 0, 0, 0, &opts));
    assert!(!heuristics.should_start_gc(max, max, 0, 0, &opts));
}

#[test]
fn a_claim_needs_budget() {
    let mut pacer = Pacer::new();
    pacer.restart_with(100);
    assert!(pacer.claim_for_alloc(60, false));
    assert!(!pacer.claim_for_alloc(60, false));
    assert!(pacer.claim_for_alloc(60, true));
}

#[test]
fn an_array_holds_what_it_was_made_of() {
    let squares = Array::new_with(4, |i| i * i);
    assert_eq!(squares.as_slice(), &[0, 1, 4, 9]);
    assert_eq!(squares.len(), 4);
    let none: Array<u8> = Array::new(0, 7);
    assert!(none.is_empty());
    assert_eq!(Array::new(3, 'x').as_slice(), &['x', 'x', 'x']);
}

#[test]
fn what_mutators_have_recorded_is_dropped() {
    let opts = options();
    let mut ctx = MarkingContext::new(MEM, 65536, 1);
    let mut threads =
        vec![Thread::register(1, &opts, StackBounds::from_lowest(4096, 4096), 8000, true)];
    threads[0].raw_write_barrier(&mut ctx, MEM + 64);
    ConcMark::new().cancel(&mut threads);
    assert!(!threads[0].cm_in_progress);
    threads[0].flush_ssb(&mut ctx);
    assert_eq!(ctx.take(0), Taken::Empty);
}

#[test]
fn an_allocation_tries_the_local_buffer_first() {
    let opts = options();
    let mut bits = rsgc::heap::bitmap::HeapBitmap::<16>::new(MEM, 65536);
    let mut thread =
        Thread::register(1, &opts, StackBounds::from_lowest(4096, 4096), 8000, false);
    assert_eq!(thread.allocate_raw(64, &mut bits), RawStep::Refill);
    assert_eq!(thread.allocate_raw(thread.max_tlab_size + 1, &mut bits), RawStep::Outside);
    assert_eq!(thread.alloc_inside_tlab_slow(0, 0, 64, &mut bits), RawStep::Outside);
    assert_eq!(
        thread.alloc_inside_tlab_slow(MEM, 2048, 64, &mut bits),
        RawStep::Done { addr: MEM }
    );
    assert_eq!(thread.allocate_raw(64, &mut bits), RawStep::Done { addr: MEM + 64 });
    assert!(bits.check_bit(MEM) && bits.check_bit(MEM + 64));
    assert_eq!(Thread::allocate_outside_tlab(MEM, 64), Ok(MEM));
    assert_eq!(Thread::allocate_outside_tlab(0, 64), Err(OOM(64)));
}

#[test]
fn what_mutators_have_recorded_becomes_tasks_at_the_end_of_marking() {
    let opts = options();
    let mut ctx = MarkingContext::new(MEM, 65536, 2);
    let mut threads = vec![
        Thread::register(1, &opts, StackBounds::from_lowest(4096, 4096), 8000, true),
        Thread::register(2, &opts, StackBounds::from_lowest(4096, 4096), 8000, true),
    ];
    threads[0].raw_write_barrier(&mut ctx, MEM + 64);
    threads[1].raw_write_barrier(&mut ctx, MEM + 128);
    ConcMark::new().finish(&mut ctx, &mut threads);
    assert!(threads.iter().all(|thread| !thread.cm_in_progress));
    let mut words = Vec::new();
    while let Taken::Task(word) = ctx.take(0) {
        words.push(word);
    }
    words.sort();
    assert_eq!(words, vec![(MEM + 64) as u64, (MEM + 128) as u64]);
}

#[test]
fn the_modes_of_the_write_barrier() {
    let opts = options();
    let mut ctx = MarkingContext::new(MEM, 65536, 1);
    let mut thread =
        Thread::register(1, &opts, StackBounds::from_lowest(4096, 4096), 8000, true);
    thread.write_barrier(BarrierMode::Passive, &mut ctx, MEM + 64);
    thread.write_barrier(BarrierMode::IncrementalUpdate, &mut ctx, MEM + 64);
    assert_eq!(thread.index, thread.buffer.len());
    ctx.mark(MEM + 64);
    thread.write_barrier(BarrierMode::Satb, &mut ctx, MEM + 64);
    assert_eq!(thread.index, thread.buffer.len());
    thread.write_barrier(BarrierMode::IncrementalUpdate, &mut ctx, MEM + 64);
    assert!(!ctx.is_marked(MEM + 64));
    assert_eq!(thread.buffer[thread.index], MEM + 64);
    ctx.mark(MEM + 64);
    thread.flush_ssb_all(&mut ctx);
    assert_eq!(ctx.take(0), Taken::Task((MEM + 64) as u64));
}

#[test]
fn the_largest_offer_for_a_buffer_is_found() {
    let opts = options();
    let mut heap = heap();
    let size = opts.region_size_bytes;
    let mut counters = rsgc::heap::region::HeapCounters {
        used: 0,
        commited: 0,
        bytes_allocated_since_gc_start: 0,
        actions: vec![],
    };
    for i in 0..heap.regions.len() {
        heap.regions[i].make_regular_allocation(&mut counters);
        heap.regions[i].free_list.clear();
        if i == 2 {
            heap.regions[i].free_list.add(MEM + 2 * size, 4096);
        }
        if i == 4 {
            heap.regions[i].free_list.add(MEM + 4 * size, 8192);
        }
    }
    assert_eq!(heap.free_set.unsafe_peek_free(&heap.regions, &opts), 8192);
}

#[test]
fn heuristics_are_asked_only_if_nobody_else_wants_a_cycle() {
    let opts = options();
    let mut thread = ControlThread::new(&opts, 0);
    assert!(thread.asks_heuristics());
    thread.handle_alloc_failure_gc();
    assert!(!thread.asks_heuristics());
    thread.run_service(false, 0, &opts);
    assert!(!thread.asks_heuristics());
    thread.run_service(false, 0, &opts);
    assert!(thread.asks_heuristics());
}

struct Longest(u64);

impl PhaseVisitor for Longest {
    fn visits(self, _phase: GCPhase, _after: Self) -> bool {
        true
    }

    fn changes(self, _phase: GCPhase, _after: Self, _phase_after: GCPhase) -> bool {
        true
    }

    fn visit(&mut self, phase: &GCPhase) {
        self.0 = self.0.max(phase.duration());
    }

    fn visit_mut(&mut self, phase: &mut GCPhase) {
        phase.set_end(phase.start() + self.0);
    }
}

#[test]
fn phases_accept_visitors() {
    let mut visitor = Longest(0);
    GCPhase::new("a", 0, 10, 15, PhaseType::Pause).accept(&mut visitor);
    let mut phase = GCPhase::new("b", 0, 10, 12, PhaseType::Pause);
    phase.accept(&mut visitor);
    assert_eq!(visitor.0, 5);
    phase.accept_mut(&mut visitor);
    assert_eq!(phase.duration(), 5);
}

#[test]
fn a_phase_within_another_ends_at_any_time() {
    let mut timer = GCTimer::new(true, 0);
    timer.register_gc_start(100, 0);
    timer.register_gc_concurrent_start("outer", 100, 0);
    timer.register_gc_phase_start("inner", 120, 0);
    timer.register_gc_phase_end(110);
    timer.register_gc_concurrent_end(90);
    assert_eq!(timer.time_partitions().phase(1).end(), 110);
    assert_eq!(timer.time_partitions().phase(0).end(), 90);
    assert_eq!(timer.time_partitions().sum_of_pauses(), 0);
}

#[test]
fn a_full_block_is_put_aside_when_an_entry_comes_back() {
    let mut storage = ObjStorage::new();
    let entries: Vec<(usize, usize)> = (0..64).map(|_| storage.allocate()).collect();
    assert_eq!(storage.deferred_updates, Vec::<usize>::new());
    storage.releasen(&entries[..3].to_vec());
    assert_eq!(storage.deferred_updates, vec![entries[0].0]);
    assert_eq!(storage.blocks[entries[0].0].allocated_bitmask(), !7);
}
