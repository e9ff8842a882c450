use rsgc::arena::bitmap::ObjectStartBitmap;
use rsgc::arena::free_list::{CellState, FreeCell, FreeList, Page};
use rsgc::arena::PAGE_HEADER;
use rsgc::base::virtual_memory::MemoryRegion;
use rsgc::blocks::allocator::{Allocator, FreeLineMeta};
use rsgc::blocks::block_allocator::{BlockAllocator, BlockFlag, BlockMeta};
use rsgc::blocks::heap::{BlockUse, Heap as BlockHeap};
use rsgc::blocks::large_allocator::{Bytemap, LargeAllocator, ObjectMeta};
use rsgc::blocks::mark::Marker;
use rsgc::gc::collector::GarbageCollector;
use rsgc::gc::MEM_KIND_RAW;
use rsgc::heap::free_set::RegionFreeSet;
use rsgc::heap::heuristics::adaptive::{AdaptiveFacts, AdaptiveHeuristics, Adjusted};
use rsgc::heap::immix::{ImmixArguments, ImmixOptions};
use rsgc::heap::mark_bitmap::MarkBitmap;
use rsgc::heap::marking_context::MarkingContext;
use rsgc::heap::pacer::{PaceStep, Pacer};
use rsgc::heap::region::{HeapArguments, HeapCounters, HeapOptions, HeapRegion, Setting};
use rsgc::heap::sweeper::{sweep_one, Block, Sweep, SweepGarbageClosure, Swept};
use rsgc::heap::{AllocRequest, AllocType};

const MEM: usize = 1 << 30;

fn options() -> HeapOptions {
    let mut args = HeapArguments::default(4096, 4);
    args.set(Setting::MaxHeapSize, 32 * 1024 * 1024);
    HeapRegion::setup_sizes(&args, 4096)
}

fn regular_region(opts: &HeapOptions) -> HeapRegion {
    let mut counters =
        HeapCounters { used: 0, commited: 0, bytes_allocated_since_gc_start: 0, actions: vec![] };
    let mut region = HeapRegion::new(0, MEM, opts, true, 0);
    region.make_regular_allocation(&mut counters);
    region
}

fn two_objects(size: usize) -> Vec<Block> {
    vec![
        Block { size: 64, is_free: false },
        Block { size: 64, is_free: false },
        Block { size: size - 128, is_free: true },
    ]
}

#[test]
fn what_is_not_marked_becomes_free() {
    let opts = options();
    let size = opts.region_size_bytes;
    let mut region = regular_region(&opts);
    region.object_start_bitmap.set_bit(MEM);
    region.object_start_bitmap.set_bit(MEM + 64);
    let mut ctx = MarkingContext::new(MEM, opts.max_heap_size, 1);
    ctx.mark(MEM + 64);
    assert!(!SweepGarbageClosure::sweep_region(&mut region, &two_objects(size), &ctx));
    assert!(!region.object_start_bitmap.check_bit(MEM));
    assert!(region.object_start_bitmap.check_bit(MEM + 64));
    assert_eq!(region.free_list.largest_and_total(), (size - 128, size - 64));
}

#[test]
fn a_region_without_live_objects_is_trash_and_then_empty() {
    let opts = options();
    let mut regions = vec![regular_region(&opts)];
    let contents = vec![two_objects(opts.region_size_bytes)];
    let ctx = MarkingContext::new(MEM, opts.max_heap_size, 1);
    assert!(matches!(sweep_one(&mut regions, 0, &contents, &ctx, &opts), Swept::Dead));
    assert!(regions[0].is_trash());
    RegionFreeSet::recycle_trash(&mut regions, 5);
    assert!(regions[0].is_empty());
    assert_eq!(regions[0].empty_time(), 5);
}

#[test]
fn every_region_that_was_added_is_swept() {
    let opts = options();
    let size = opts.region_size_bytes;
    let mut counters =
        HeapCounters { used: 0, commited: 0, bytes_allocated_since_gc_start: 0, actions: vec![] };
    let mut regions: Vec<HeapRegion> = (0..3)
        .map(|i| HeapRegion::new(i, MEM + i * size, &opts, true, 0))
        .collect();
    for region in regions.iter_mut() {
        region.make_regular_allocation(&mut counters);
    }
    let contents: Vec<Vec<Block>> = (0..3).map(|_| two_objects(size)).collect();
    let mut ctx = MarkingContext::new(MEM, opts.max_heap_size, 1);
    ctx.mark(MEM + size);
    let mut sweep = Sweep::new();
    sweep.add_region(1);
    sweep.add_region(2);
    sweep.run(&mut regions, &contents, &ctx, &opts);
    assert!(regions[0].is_regular());
    assert_eq!(regions[0].free_list.free(), size);
    assert!(regions[1].is_regular());
    assert_eq!(regions[1].free_list.largest_and_total().1, size - 64);
    assert!(regions[2].is_trash());
}

fn sweep_page(live: &[usize]) -> (bool, Vec<usize>) {
    let base = 4096;
    let page = Page { start: base };
    let mut bits = ObjectStartBitmap::new(base, 4096);
    let mut cells: Vec<FreeCell> =
        (0..256).map(|_| FreeCell { preserved_bits: 0, scramble_next: 0 }).collect();
    let mut states = vec![CellState::White; 256];
    for addr in live {
        bits.set_bit(*addr);
        states[(addr - base) / 16] = CellState::Black;
    }
    let mut list = FreeList::new(32);
    let empty = page.specialized_sweep(
        &mut list,
        true,
        false,
        &mut bits,
        &mut cells,
        &states,
        1024,
        CellState::White,
        32,
        0x5a5a,
    );
    let mut got = Vec::new();
    while let Some(cell) = list.allocate(&cells, base) {
        got.push(cell);
    }
    got.sort();
    (empty, got)
}

#[test]
fn dead_cells_of_a_page_are_handed_out_once() {
    let first = 4096 + PAGE_HEADER;
    let n = (1024 - PAGE_HEADER).div_ceil(32);
    let all: Vec<usize> = (0..n).map(|k| first + 32 * k).collect();
    assert_eq!(sweep_page(&[]), (true, all.clone()));
    let live = [first + 32, first + 320];
    let dead: Vec<usize> = all.iter().copied().filter(|a| !live.contains(a)).collect();
    assert_eq!(sweep_page(&live), (false, dead));
}

#[test]
fn a_page_that_is_empty_is_bumped() {
    let page = Page { start: 4096 };
    let mut bits = ObjectStartBitmap::new(4096, 4096);
    let mut cells: Vec<FreeCell> = vec![];
    let mut list = FreeList::new(16);
    let empty = page.specialized_sweep(
        &mut list,
        true,
        true,
        &mut bits,
        &mut cells,
        &vec![],
        1024,
        CellState::White,
        16,
        0,
    );
    assert!(empty);
    assert_eq!(list.allocate(&cells, 4096), Some(4096 + PAGE_HEADER - (1024 - PAGE_HEADER)));
}

#[test]
fn a_dead_block_is_handed_out_again() {
    let base = 0x4000_0000;
    let mut gc = GarbageCollector::new();
    let a = gc.alloc_fixed_in_new_page(1, MEM_KIND_RAW, 65536, base);
    let b = gc.alloc_fixed(1, MEM_KIND_RAW).unwrap();
    assert_eq!((a, b), (base, base + 16));
    let gone = gc.mark(&vec![a], &vec![], &vec![vec![0u64; 8192]]);
    assert!(gone.is_empty());
    assert_eq!(gc.alloc_fixed(1, MEM_KIND_RAW), Some(b));
}

#[test]
fn credit_wakes_those_that_wait() {
    let mut pacer = Pacer::new();
    pacer.restart_with(0);
    assert!(pacer.notify_waiters());
    assert!(!pacer.notify_waiters());
    assert!(!pacer.claim_for_alloc(50, false));
    assert!(pacer.claim_for_alloc(50, true));
    pacer.report_mark(20);
    assert!(!pacer.notify_waiters());
    pacer.report_sweep(30);
    assert!(pacer.notify_waiters());
    assert_eq!(pacer.update_for_alloc(0, 10), PaceStep::Go);
    assert_eq!(pacer.update_for_alloc(1, 10), PaceStep::Wait);
    assert_eq!(Pacer::wait_time(10, 4), 6);
    assert_eq!(Pacer::wait_time(10, 12), 1);
}

#[test]
fn the_trigger_of_a_cycle_is_remembered() {
    let opts = options();
    let max_capacity = opts.max_heap_size;
    let mut heuristics = AdaptiveHeuristics::new(100, 0);
    let mut facts =
        AdaptiveFacts { max_capacity, available: 0, too_slow: false, spiking: false };
    assert!(heuristics.should_start_gc(&facts, 1, &opts));
    assert_eq!(heuristics.last_trigger_parameter(), Adjusted::Nothing);
    facts.available = max_capacity;
    assert!(!heuristics.should_start_gc(&facts, 1, &opts));
    facts.spiking = true;
    assert!(heuristics.should_start_gc(&facts, 1, &opts));
    assert_eq!(heuristics.last_trigger_parameter(), Adjusted::SpikeThreshold);
    facts.too_slow = true;
    assert!(heuristics.should_start_gc(&facts, 1, &opts));
    assert_eq!(heuristics.last_trigger_parameter(), Adjusted::MarginOfError);
}

#[test]
fn strong_and_weak_marks() {
    let start = 1 << 20;
    let mut marks = MarkBitmap::new(MemoryRegion::new(start, 1 << 16));
    assert!(!marks.is_marked_strong(start + 640));
    assert_eq!(marks.mark_strong(start + 640), (true, false));
    assert_eq!(marks.mark_strong(start + 640), (false, false));
    assert!(marks.is_marked_strong(start + 640));
    assert!(marks.mark_weak(start + 1920));
    assert!(!marks.mark_weak(start + 1920));
    assert!(marks.is_marked_weak(start + 1920));
    assert!(marks.is_marked_strong_range(start, start + 640));
    assert!(!marks.is_marked_strong_range(start + 640, start + 1280));
    marks.clear();
    assert!(!marks.is_marked_strong(start + 640));
    assert_eq!(MarkBitmap::compute_size(1 << 20), 16384);
    assert_eq!(MarkBitmap::compute_size((1 << 20) + 64), 16400);
}

#[test]
fn blocks_and_lines_fill_the_heap() {
    let opts = ImmixOptions::setup_sizes(&ImmixArguments::default(), 4096);
    assert_eq!(opts.block_count * opts.block_size_bytes, opts.max_heap_size);
    assert_eq!(opts.line_count * opts.line_size_bytes, opts.block_size_bytes);
    assert!(opts.block_size_bytes.is_power_of_two());
}

fn metas(n: usize) -> Vec<BlockMeta> {
    vec![BlockMeta { flag: BlockFlag::Free, humongous_size: 0, first_free_line: None }; n]
}

#[test]
fn objects_are_bumped_in_a_block() {
    let mut metas = metas(4);
    let mut blocks = BlockAllocator::new(&metas, 4);
    let lines: Vec<FreeLineMeta> =
        (0..4 * 128).map(|_| FreeLineMeta { next: None, size: 0 }).collect();
    let mut allocator = Allocator::new(1 << 20);
    assert!(allocator.try_init_cursors(&mut blocks, &mut metas, &lines));
    let a = allocator.allocate(&mut blocks, &mut metas, &lines, 64).unwrap();
    let b = allocator.allocate(&mut blocks, &mut metas, &lines, 64).unwrap();
    assert_eq!(b, a + 64);
    let c = allocator.allocate(&mut blocks, &mut metas, &lines, 32768 - 64).unwrap();
    assert!(c >= a + 32768 || c + 32768 <= a + 128);
    assert_eq!(allocator.overflow_allocation(&mut blocks, &mut metas, 32).map(|d| d > c), Some(true));
}

#[test]
fn a_block_heap_grows_to_its_limit() {
    let metas = metas(4);
    let mut heap = BlockHeap {
        heap_start: 1 << 20,
        heap_end: (1 << 20) + 4 * 32768,
        line_meta_start: 4096,
        line_meta_end: 4096 + 4 * 128,
        heap_size: 4 * (32768 + 16 + 2176),
        max_heap_size: 1 << 20,
        block_count: 4,
        max_block_count: 6,
        bytemap: Bytemap { data: vec![ObjectMeta::Free; 4 * 2048] },
        block_allocator: BlockAllocator::new(&metas, 4),
        large_allocator: LargeAllocator::new(),
        metas,
    };
    assert!(heap.is_word_in_heap(1 << 20));
    assert!(heap.is_growing_possible(2));
    assert!(heap.grow(2, 16));
    assert_eq!(heap.block_count, 6);
    assert_eq!(heap.heap_end, (1 << 20) + 6 * 32768);
    assert_eq!(heap.heap_size, 6 * (32768 + 16 + 2176));
    assert!(!heap.grow(1, 16));
    assert_eq!(heap.block_count, 6);
}

#[test]
fn words_lead_to_marks_and_dead_runs_become_free() {
    let metas = metas(8);
    let mut heap = BlockHeap {
        heap_start: 1 << 20,
        heap_end: (1 << 20) + 8 * 32768,
        line_meta_start: 4096,
        line_meta_end: 4096 + 8 * 128,
        heap_size: 8 * (32768 + 16 + 2176),
        max_heap_size: 1 << 20,
        block_count: 8,
        max_block_count: 8,
        bytemap: Bytemap { data: vec![ObjectMeta::Free; 8 * 2048] },
        block_allocator: BlockAllocator::new(&metas, 8),
        large_allocator: LargeAllocator::new(),
        metas,
    };
    let mut objects = Vec::new();
    for _ in 0..4 {
        let offset = heap
            .large_allocator
            .get_block(&mut heap.bytemap, &mut heap.block_allocator, &mut heap.metas, 65536)
            .unwrap();
        objects.push(heap.heap_start + offset);
    }
    let place = |object: usize| (object - (1 << 20)) / 16;
    let mut refs = vec![Vec::new(); 8 * 2048];
    refs[place(objects[0])] = vec![objects[2]];
    refs[place(objects[3])] = vec![objects[1]];
    let (start, end) = (heap.heap_start, heap.heap_end);
    Marker::new().mark_roots(
        &mut heap.bytemap,
        start,
        end,
        &vec![vec![0, objects[0] + 8, 77], vec![]],
        &vec![vec![None, Some(objects[0]), None], vec![]],
        &refs,
    );
    let marked: Vec<bool> =
        objects.iter().map(|o| heap.bytemap.data[place(*o)] == ObjectMeta::Marked).collect();
    assert_eq!(marked, vec![true, false, true, false]);
    heap.recycle(&vec![BlockUse::Full; 8], 4, 16);
    assert_eq!(heap.block_count, 8);
    assert_eq!(heap.heap_end, (1 << 20) + 8 * 32768);
    let mut again = Vec::new();
    for _ in 0..2 {
        let offset = heap
            .large_allocator
            .get_block(&mut heap.bytemap, &mut heap.block_allocator, &mut heap.metas, 65536)
            .unwrap();
        again.push(heap.heap_start + offset);
    }
    again.sort();
    let mut dead = vec![objects[1], objects[3]];
    dead.sort();
    assert_eq!(again, dead);
}

#[test]
fn a_block_heap_grows_when_little_is_free() {
    let metas = metas(2);
    let mut heap = BlockHeap {
        heap_start: 1 << 20,
        heap_end: (1 << 20) + 2 * 32768,
        line_meta_start: 4096,
        line_meta_end: 4096 + 2 * 128,
        heap_size: 2 * (32768 + 16 + 2176),
        max_heap_size: 1 << 20,
        block_count: 2,
        max_block_count: 5,
        bytemap: Bytemap { data: vec![ObjectMeta::Free; 2 * 2048] },
        block_allocator: BlockAllocator::new(&metas, 2),
        large_allocator: LargeAllocator::new(),
        metas,
    };
    let block = heap.block_allocator.get_free_block(&mut heap.metas).unwrap();
    heap.block_allocator.get_free_block(&mut heap.metas).unwrap();
    heap.recycle(&vec![BlockUse::Full; 2], 2, 16);
    assert_eq!(heap.block_count, 4);
    assert_eq!(heap.heap_end, (1 << 20) + 4 * 32768);
    assert_eq!(heap.heap_size, 4 * (32768 + 16 + 2176));
    assert_eq!(heap.line_meta_end, 4096 + 4 * 128);
    assert_eq!(heap.heap_start, 1 << 20);
    assert_eq!(heap.max_block_count, 5);
    assert_eq!(heap.bytemap.data.len(), 4 * 2048);
    assert!(block < 2);
}

#[test]
fn a_collection_of_a_block_heap_spares_what_is_led_to() {
    let metas = metas(8);
    let mut heap = BlockHeap {
        heap_start: 1 << 20,
        heap_end: (1 << 20) + 8 * 32768,
        line_meta_start: 4096,
        line_meta_end: 4096 + 8 * 128,
        heap_size: 8 * (32768 + 16 + 2176),
        max_heap_size: 1 << 20,
        block_count: 8,
        max_block_count: 8,
        bytemap: Bytemap { data: vec![ObjectMeta::Free; 8 * 2048] },
        block_allocator: BlockAllocator::new(&metas, 8),
        large_allocator: LargeAllocator::new(),
        metas,
    };
    let simple = heap.block_allocator.get_free_block(&mut heap.metas).unwrap();
    let mut objects = Vec::new();
    for _ in 0..3 {
        let offset = heap
            .large_allocator
            .get_block(&mut heap.bytemap, &mut heap.block_allocator, &mut heap.metas, 65536)
            .unwrap();
        objects.push(heap.heap_start + offset);
    }
    let place = |object: usize| (object - (1 << 20)) / 16;
    let mut refs = vec![Vec::new(); 8 * 2048];
    refs[place(objects[0])] = vec![objects[2]];
    let dead = place(objects[1]);
    let live = place(objects[2]);
    heap.collect(
        &vec![vec![objects[0] + 24]],
        &vec![vec![Some(objects[0])]],
        &refs,
        |bytemap, block| {
            assert_eq!(block, simple);
            assert_eq!(bytemap.data[live], ObjectMeta::Marked);
            assert_eq!(bytemap.data[dead], ObjectMeta::Allocated);
            BlockUse::Unmarked
        },
        0,
        16,
    );
    assert_eq!(heap.block_count, 8);
    assert_eq!(heap.metas[simple].flag, BlockFlag::Free);
    assert_eq!(heap.metas[(objects[1] - (1 << 20)) / 32768].flag, BlockFlag::Free);
    assert_eq!(heap.metas[(objects[0] - (1 << 20)) / 32768].flag, BlockFlag::HumongousStart);
    assert_eq!(heap.bytemap.data[live], ObjectMeta::Allocated);
    assert_eq!(heap.bytemap.data[dead], ObjectMeta::Free);
}

#[test]
fn the_longest_run_of_empty_regions_is_found() {
    let opts = options();
    let size = opts.region_size_bytes;
    let mut counters =
        HeapCounters { used: 0, commited: 0, bytes_allocated_since_gc_start: 0, actions: vec![] };
    let mut regions: Vec<HeapRegion> = (0..opts.region_count)
        .map(|i| HeapRegion::new(i, MEM + i * size, &opts, true, 0))
        .collect();
    for (i, region) in regions.iter_mut().enumerate() {
        if i == 0 || i == 3 || i > 6 {
            region.make_regular_allocation(&mut counters);
            region.allocate(size, &mut counters);
            region.set_used(0);
        }
    }
    let mut set = RegionFreeSet::new(&opts);
    set.set_heap(opts.region_count);
    set.rebuild(&regions, &opts);
    let survey = set.survey(&regions, &opts);
    assert_eq!(survey.max_contig, 3);
    assert_eq!(survey.total_free_ext, 5 * size);
    assert_eq!(set.external_fragmentation(&regions, &opts), (3 * size, 5 * size));
    assert_eq!(set.log_status(&regions, &opts).0, 40);
    assert_eq!((set.mutator_leftmost, set.mutator_rightmost), (1, 6));
}

#[test]
fn the_bounds_of_the_set_follow_its_regions() {
    let opts = options();
    let size = opts.region_size_bytes;
    let mut counters =
        HeapCounters { used: 0, commited: 0, bytes_allocated_since_gc_start: 0, actions: vec![] };
    let mut regions: Vec<HeapRegion> = (0..opts.region_count)
        .map(|i| HeapRegion::new(i, MEM + i * size, &opts, true, 0))
        .collect();
    regions[0].last_sweep_free = 7;
    regions[0].empty_time = 3;
    let mut set = RegionFreeSet::new(&opts);
    set.set_heap(opts.region_count);
    set.rebuild(&regions, &opts);
    let mut fresh = false;
    let mut req = AllocRequest::new(AllocType::Shared, 2 * size, 2 * size);
    let addr = set.allocate(&mut regions, &opts, &mut counters, &mut req, &mut fresh, 9);
    assert_eq!(addr, MEM);
    assert_eq!(set.mutator_leftmost, 2);
    assert_eq!(set.mutator_rightmost, opts.region_count - 1);
    assert_eq!((regions[0].last_sweep_free, regions[0].empty_time), (7, 3));
}
