use rsgc::arena::bitmap::{start_of_page, Arena};
use rsgc::arena::collection::{
    ArenaCollection, BaseMemory, LocalAllocator, LocalStep, PageStep,
};
use rsgc::arena::free_list::{FreeCell, FreeList, Page};
use rsgc::arena::size_classes::{size_class_step, size_classes, size_classes_from, ClassStep};
use rsgc::arena::MemoryType;
use rsgc::blocks::block_allocator::{BlockAllocator, BlockFlag, BlockMeta};
use rsgc::blocks::heap::{init, map_and_align, InitError};
use rsgc::blocks::large_allocator::{Bytemap, LargeAllocator, ObjectMeta};
use rsgc::blocks::mark::Marker;
use rsgc::gc::collector::{AllocPlan, FailedAlloc, GarbageCollector};
use rsgc::gc::memory::{out_of_memory, MapStep, OutOfMemory};
use rsgc::gc::page_map::PageMap;
use rsgc::gc::{mem_has_ptr, MEM_KIND_DYNAMIC, MEM_KIND_NOPTR, MEM_KIND_RAW};

const BASE: u64 = 0x4000_0000;

#[test]
fn sizes_are_planned() {
    assert_eq!(GarbageCollector::raw_alloc(1, MEM_KIND_RAW), AllocPlan::Fixed { part: 0, size: 8 });
    assert_eq!(
        GarbageCollector::raw_alloc(40, MEM_KIND_RAW),
        AllocPlan::Fixed { part: 4, size: 40 }
    );
    assert_eq!(
        GarbageCollector::raw_alloc(41, MEM_KIND_RAW),
        AllocPlan::Var { part: 5, size: 48 }
    );
    assert_eq!(
        GarbageCollector::raw_alloc(3000, MEM_KIND_RAW),
        AllocPlan::Var { part: 6, size: 3008 }
    );
    assert_eq!(
        GarbageCollector::raw_alloc(1 << 20, MEM_KIND_RAW),
        AllocPlan::Large { size: 1 << 20 }
    );
}

#[test]
fn fixed_blocks_come_one_after_the_other() {
    let mut gc = GarbageCollector::new();
    assert_eq!(gc.alloc_fixed(0, MEM_KIND_NOPTR), None);
    let size = gc.new_page_size(MEM_KIND_NOPTR as usize, 8, 65536);
    assert_eq!(size, 65536);
    let first = gc.alloc_fixed_in_new_page(0, MEM_KIND_NOPTR, size, BASE);
    assert_eq!(first, BASE);
    assert_eq!(gc.alloc_fixed(0, MEM_KIND_NOPTR), Some(BASE + 8));
    assert_eq!(gc.alloc_fixed(0, MEM_KIND_NOPTR), Some(BASE + 16));
}

#[test]
fn several_blocks_come_from_the_start_of_a_run() {
    let mut gc = GarbageCollector::new();
    assert_eq!(gc.alloc_var(5, 48, MEM_KIND_RAW), None);
    let psize = GarbageCollector::var_page_size(48);
    assert_eq!(psize, 65536);
    let first = gc.alloc_var_in_new_page(5, 48, MEM_KIND_RAW, psize, BASE);
    let second = gc.alloc_var(5, 96, MEM_KIND_RAW).unwrap();
    assert!(first >= BASE);
    assert_eq!(second, first + 48);
}

#[test]
fn a_page_without_marked_objects_is_removed() {
    let mut gc = GarbageCollector::new();
    let a = gc.alloc_fixed_in_new_page(1, MEM_KIND_RAW, 65536, BASE);
    let b = gc.alloc_fixed(1, MEM_KIND_RAW).unwrap();
    gc.alloc_fixed_in_new_page(2, MEM_KIND_RAW, 65536, BASE + 65536);
    let mut first = vec![0u64; 8192];
    first[0] = b;
    let memory = vec![first, vec![0u64; 8192]];
    let gone = gc.mark(&vec![a], &vec![vec![12345]], &memory);
    assert_eq!(gone, vec![1]);
    let gone = gc.mark(&vec![], &vec![], &vec![vec![0u64; 8192], vec![0u64; 8192]]);
    assert_eq!(gone, vec![0]);
}

#[test]
fn kinds_with_pointers() {
    assert!(mem_has_ptr(MEM_KIND_DYNAMIC));
    assert!(mem_has_ptr(MEM_KIND_RAW));
    assert!(!mem_has_ptr(MEM_KIND_NOPTR));
}

#[test]
fn pages_are_found_by_any_address() {
    let mut map = PageMap::new();
    assert_eq!(map.get_page(BASE), None);
    map.set_level1(BASE);
    map.set_page(BASE, Some(3));
    assert_eq!(map.get_page(BASE + 65535), Some(3));
    assert_eq!(map.get_page(BASE + 65536), None);
    assert_eq!(map.will_collide(BASE - 65536, 3 * 65536), BASE);
    map.set_page(BASE, None);
    assert_eq!(map.will_collide(BASE - 65536, 3 * 65536), 0);
}

#[test]
fn a_mapping_is_used_if_it_is_aligned() {
    let mut gc = GarbageCollector::new();
    assert_eq!(gc.page_mapped(None, 65536), MapStep::Failed);
    assert_eq!(gc.page_mapped(Some(BASE), 65536), MapStep::Use { base: BASE });
    assert!(gc.page_mapped(Some(BASE + 4096), 65536) != MapStep::Use { base: BASE + 4096 });
}

#[test]
fn memory_that_runs_out() {
    assert_eq!(out_of_memory(2, 1, 100), OutOfMemory::Again);
    assert_eq!(out_of_memory(1, 1, 0x80_0000), OutOfMemory::Fail(FailedAlloc(8192)));
    assert_eq!(out_of_memory(1, 1, 100), OutOfMemory::Abort);
}

#[test]
fn heap_sizes_are_checked() {
    let limit = 1 << 30;
    assert_eq!(init(0, 1000, limit, 16, 16), Err(InitError::MaximumTooSmall));
    assert_eq!(init(limit + 1, usize::MAX, limit, 16, 16), Err(InitError::MinimumTooLarge));
    assert_eq!(init(4 << 20, 2 << 20, limit, 16, 16), Err(InitError::MaximumBelowMinimum));
    let plan = init(1 << 20, usize::MAX, limit, 16, 16).unwrap();
    assert_eq!(plan.max_heap_size, limit);
    assert_eq!(plan.initial_block_count, (1 << 20) / (32768 + 16 + 2176));
    assert_eq!(plan.line_meta_space_size, plan.max_number_of_blocks * 128);
    assert_eq!(plan.bytemap_space_size, limit / 16 + 16);
    assert_eq!(map_and_align(1000, 4096), 4096);
}

fn metas(n: usize) -> Vec<BlockMeta> {
    vec![BlockMeta { flag: BlockFlag::Free, humongous_size: 0, first_free_line: None }; n]
}

#[test]
fn free_blocks_are_handed_out_once() {
    let mut metas = metas(8);
    let mut blocks = BlockAllocator::new(&metas, 8);
    let mut seen = Vec::new();
    while let Some(block) = blocks.get_free_block(&mut metas) {
        assert!(!seen.contains(&block));
        seen.push(block);
    }
    assert_eq!(seen.len(), 8);
    blocks.recycle(5);
    assert_eq!(blocks.try_recycled(), Some(5));
    assert_eq!(blocks.try_recycled(), None);
}

#[test]
fn a_run_of_blocks_is_one_piece() {
    let mut metas = metas(8);
    let mut blocks = BlockAllocator::new(&metas, 8);
    let run = blocks.get_free_humongous_block(&mut metas, 3).unwrap();
    assert!(run + 3 <= 8);
    assert_eq!(metas[run].flag, BlockFlag::HumongousStart);
    assert_eq!(metas[run + 2].flag, BlockFlag::HumongousContinuation);
    assert_eq!(blocks.get_free_humongous_block(&mut metas, 9), None);
}

#[test]
fn large_blocks_lie_apart() {
    let mut metas = metas(8);
    let mut blocks = BlockAllocator::new(&metas, 8);
    let mut bytemap = Bytemap { data: vec![ObjectMeta::Free; 2048 * 8] };
    let mut large = LargeAllocator::new();
    let a = large.get_block(&mut bytemap, &mut blocks, &mut metas, 10000).unwrap();
    let b = large.get_block(&mut bytemap, &mut blocks, &mut metas, 40000).unwrap();
    assert!(a + 16384 <= b || b + 40960 <= a);
    assert_eq!(a % 8192, 0);
    assert_eq!(b % 8192, 0);
}

#[test]
fn what_objects_lead_to_is_marked() {
    let mut bytemap = Bytemap { data: vec![ObjectMeta::Free; 64] };
    bytemap.data[0] = ObjectMeta::Allocated;
    bytemap.data[4] = ObjectMeta::Allocated;
    bytemap.data[8] = ObjectMeta::Allocated;
    let start = 4096;
    let end = start + 1024;
    let mut refs = vec![vec![]; 64];
    refs[0] = vec![start + 64, 7];
    refs[8] = vec![start];
    let mut marker = Marker::new();
    marker.visit(&mut bytemap, start, end, start);
    marker.mark(&mut bytemap, start, end, &refs);
    assert_eq!(bytemap.data[0], ObjectMeta::Marked);
    assert_eq!(bytemap.data[4], ObjectMeta::Marked);
    assert_eq!(bytemap.data[8], ObjectMeta::Allocated);
}

#[test]
fn small_size_classes() {
    let classes = size_classes(&vec![96, 128]);
    assert_eq!(classes, vec![16, 32, 48, 64, 96, 128, 256]);
    let mut table = vec![0; 257];
    ArenaCollection::build_size_class_table(&mut table, &classes, 256);
    assert_eq!(table[ArenaCollection::size_class_to_index(70)], 96);
    assert_eq!(table[ArenaCollection::size_class_to_index(64)], 64);
    assert_eq!(size_class_step(300, 256, 4096, None), ClassStep::Stop);
    assert_eq!(size_class_step(100, 256, 4096, Some(64)), ClassStep::Take { size: 112 });
    assert_eq!(size_class_step(100, 256, 4096, Some(112)), ClassStep::Skip);
    assert_eq!(
        size_classes_from(&vec![80, 100, 110, 300, 120], 256, 4096),
        vec![16, 32, 48, 64, 80, 112, 256]
    );
    assert_eq!(table[ArenaCollection::size_class_to_index(250)], 256);
}

#[test]
fn cells_are_bumped() {
    let mut list = FreeList::new(32);
    assert!(list.allocation_will_fail());
    list.initialize_bump(8192, 96);
    let cells: Vec<FreeCell> = vec![];
    assert_eq!(list.allocate(&cells, 0), Some(8096));
    assert_eq!(list.allocate(&cells, 0), Some(8128));
    assert_eq!(list.allocate(&cells, 0), Some(8160));
    assert_eq!(list.allocate(&cells, 0), None);
}

#[test]
fn a_scrambled_link_is_read_back() {
    let mut cell = FreeCell { scramble_next: 0, preserved_bits: 0 };
    cell.set_next(4096, 0x5555);
    assert_eq!(cell.next(0x5555), 4096);
    assert_ne!(cell.scramble_next, 4096);
    assert_eq!(FreeCell::descramble(FreeCell::scramble(77, 13), 13), 77);
}

#[test]
fn pages_of_an_arena_come_in_order() {
    let mut ac = ArenaCollection::new(64 * 4096, 4096, 256, usize::MAX);
    assert_eq!(ac.allocate_new_page(), PageStep::NeedsArena);
    ac.add_arena(1 << 20);
    assert_eq!(ac.allocate_new_page(), PageStep::Got { page: 1 << 20 });
    assert_eq!(ac.allocate_new_page(), PageStep::Got { page: (1 << 20) + 4096 });
    ac.free_page(0, 1 << 20);
    assert_eq!(ac.allocate_new_page(), PageStep::Got { page: 1 << 20 });
}

#[test]
fn an_arena_knows_its_objects() {
    let mut arena = Arena::new(1 << 20, 16 * 4096, 4096);
    arena.set_object_start((1 << 20) + 64);
    assert_eq!(arena.find_object_start((1 << 20) + 100), (1 << 20) + 64);
    assert!(arena.contains((1 << 20) + 100));
    assert!(!arena.contains(arena.end()));
    arena.clear_object_start((1 << 20) + 64);
    assert_eq!(start_of_page(10000, 4096), 8192);
}

#[test]
fn an_address_leads_to_the_object_it_points_into() {
    let mut ac = ArenaCollection::new(64 * 4096, 4096, 256, usize::MAX);
    assert_eq!(ac.object_from_pointer(1 << 20), 0);
    ac.add_arena(1 << 20);
    ac.arenas[0].set_object_start((1 << 20) + 64);
    assert_eq!(ac.object_from_pointer((1 << 20) + 100), (1 << 20) + 64);
    assert_eq!(ac.object_from_pointer((1 << 20) + 64), (1 << 20) + 64);
    assert_eq!(ac.object_from_pointer((1 << 20) + 63), 0);
    ac.tree.add(BaseMemory { typ: MemoryType::Large, start: 1 << 24, id: 0 });
    assert_eq!(ac.object_from_pointer((1 << 24) + 500), (1 << 24) + 32);
}

#[test]
fn a_local_allocator_hands_each_cell_out_once() {
    let mut ac = ArenaCollection::new(64 * 4096, 4096, 256, 1000);
    let mut local = LocalAllocator::new(64);
    assert_eq!(local.allocate_slowcase(&mut ac), LocalStep::NeedsPage);
    let page = Page { start: 1 << 20 };
    local.free_list.initialize_bump((1 << 20) + 4096, 128);
    let end = (1 << 20) + 4096;
    assert_eq!(local.try_allocate_in(page, &vec![], 1 << 20), Some(end - 128));
    assert_eq!(local.try_allocate_in(page, &vec![], 1 << 20), Some(end - 64));
    assert_eq!(local.try_allocate_in(page, &vec![], 1 << 20), None);
    assert_eq!(local.full_pages, vec![1 << 20]);
    let mut cells = vec![FreeCell { preserved_bits: 0, scramble_next: 0 }; 16];
    cells[2].set_next(0, 9);
    cells[5].set_next((1 << 20) + 32, 9);
    local.free_list.initialize_list((1 << 20) + 80, 9, 128);
    assert_eq!(local.try_allocate_in(page, &cells, 1 << 20), Some((1 << 20) + 80));
    assert_eq!(local.try_allocate_in(page, &cells, 1 << 20), Some((1 << 20) + 32));
    assert_eq!(local.try_allocate_in(page, &cells, 1 << 20), None);
    assert_eq!(local.allocate_slowcase(&mut ac), LocalStep::NeedsPage);
    assert_eq!(local.free_list.cell_size(), 64);
    assert_eq!(ac.bytes_allocated_this_cycle, 128);
}

#[test]
fn arenas_without_used_pages_are_given_up() {
    let mut ac = ArenaCollection::new(2 * 4096, 4096, 256, usize::MAX);
    ac.add_arena(1 << 20);
    for page in [1 << 20, (1 << 20) + 4096] {
        assert_eq!(ac.allocate_new_page(), PageStep::Got { page });
    }
    assert_eq!(ac.allocate_new_page(), PageStep::NeedsArena);
    ac.free_page(0, 1 << 20);
    ac.free_page(0, (1 << 20) + 4096);
    assert_eq!(ac.allocate_new_arena(), (false, vec![0]));
    assert_eq!(ac.arenas_count, 0);
    assert_eq!(ac.object_from_pointer(1 << 20), 0);
}
