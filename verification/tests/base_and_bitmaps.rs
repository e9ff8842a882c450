use rsgc::base::bitset::BitSet;
use rsgc::base::stack::{Stack, StackBounds};
use rsgc::base::utils::{
    count_leading_zeros_16_, count_leading_zeros_32, count_leading_zeros_32_,
    count_leading_zeros_64, count_leading_zeros_64_, count_leading_zeros_8,
    count_leading_zeros_8_, round_down, round_up, scaled, split_factor, TinyBloomFilter,
};
use rsgc::base::virtual_memory::{
    align_mapping, allocated_size, log2, MemoryRegion, VirtualMemory,
};
use rsgc::gc_roots::{AddressRange, GCRoots};
use rsgc::heap::bitmap::{CHeapBitmap, HeapBitmap, HeapBytemap};
use rsgc::heap::free_list::bucket_index_for_size;
use rsgc::heap::card_table::{age_card_visitor, CardTable};
use rsgc::heap::{
    align_down, align_up, is_aligned, round_down_to_power_of_two32, round_up_to_power_of_two32,
    which_power_of_two, DynBitmap, GCHeuristic,
};

#[test]
fn test_log2() {
    for i in 0..32 {
        assert_eq!(i, log2(1 << i));
    }
}

#[test]
fn test_cheap_bitmap() {
    let heap = vec![0u8; 4 * 1024 * 1024].into_boxed_slice();
    let heap_ptr = heap.as_ptr() as usize;

    let mut bmp1 = CHeapBitmap::new(256, heap_ptr, heap.len());

    bmp1.set_bit(heap_ptr + 24);
    bmp1.set_bit(heap_ptr + 512);
    assert!(bmp1.check_bit(heap_ptr));
    assert!(bmp1.check_bit(heap_ptr + 512));
    assert!(!bmp1.check_bit(heap_ptr + 256));
}

#[test]
fn log2_of_other_values_rounds_down() {
    assert_eq!(log2(0), 0);
    assert_eq!(log2(3), 1);
    assert_eq!(log2(1023), 9);
    assert_eq!(log2(1025), 10);
}

#[test]
fn cheap_bitmap_counts_and_clears() {
    let mut bits = CHeapBitmap::new(16, 4096, 4096);
    bits.set_bit(4096);
    bits.set_bit(4096 + 160);
    assert_eq!(bits.count_ones(), 2);
    bits.clear_bit(4096);
    assert!(!bits.check_bit(4096));
    assert!(bits.check_bit(4096 + 160));
    bits.clear();
    assert_eq!(bits.count_ones(), 0);
}

#[test]
fn heap_bitmap_finds_the_object_around_an_address() {
    let mut bits: HeapBitmap<16> = HeapBitmap::new(65536, 4096);
    bits.set_bit(65536 + 32);
    bits.set_bit(65536 + 320);
    assert_eq!(bits.find_object_start(65536 + 32), 65536 + 32);
    assert_eq!(bits.find_object_start(65536 + 300), 65536 + 32);
    assert_eq!(bits.find_object_start(65536 + 320), 65536 + 320);
    assert_eq!(bits.find_object_start(65536 + 4000), 65536 + 320);
    assert_eq!(bits.find_object_start(65536), 0);
}

#[test]
fn heap_bitmap_sets_only_once() {
    let mut bits: HeapBitmap<16> = HeapBitmap::new(65536, 4096);
    assert!(bits.atomic_test_and_set(65536 + 48));
    assert!(!bits.atomic_test_and_set(65536 + 48));
    assert!(bits.check_atomic(65536 + 48));
    bits.clear_atomic(65536 + 48);
    assert!(!bits.check_bit(65536 + 48));
}

#[test]
fn heap_bitmap_visits_in_order() {
    let mut bits: HeapBitmap<16> = HeapBitmap::new(65536, 4096);
    bits.set_bit(65536 + 640);
    bits.set_bit(65536 + 16);
    bits.set_bit(65536 + 2048);
    assert_eq!(
        bits.visit_marked_range(65536, 65536 + 2048),
        vec![65536 + 16, 65536 + 640]
    );
}

#[test]
fn heap_bitmap_clear_range_clears_what_lies_in_it() {
    let mut bits: HeapBitmap<16> = HeapBitmap::new(65536, 4096);
    for k in 0..64 {
        bits.set_bit(65536 + 16 * k);
    }
    bits.clear_range(65536 + 48, 65536 + 800);
    for k in 0..64 {
        assert_eq!(bits.check_bit(65536 + 16 * k), !(3..50).contains(&k));
    }
    assert!(!bits.is_marked_range(65536 + 48, 65536 + 800));
    assert!(bits.is_marked_range(65536, 65536 + 800));
}

#[test]
fn sweep_walk_finds_what_is_live_and_not_marked() {
    let mut live: HeapBitmap<16> = HeapBitmap::new(65536, 4096);
    let mut mark: HeapBitmap<16> = HeapBitmap::new(65536, 4096);
    live.set_bit(65536 + 16);
    live.set_bit(65536 + 64);
    live.set_bit(65536 + 160);
    mark.set_bit(65536 + 64);
    let found: Vec<usize> =
        HeapBitmap::<16>::sweep_walk(&live, &mark, 65536, 65536 + 2048).concat();
    assert_eq!(found, vec![16, 160]);
}

#[test]
fn bytemap_keeps_bytes_apart() {
    let mut map: HeapBytemap<16> = HeapBytemap::new(65536, 4096);
    map.set_byte(65536 - 32, 7);
    map.set_byte(65536 - 48, 9);
    assert_eq!(map.get_byte(65536 - 32), 7);
    assert_eq!(map.get_byte(65536 - 48), 9);
    assert_eq!(map.get_byte(65536), 0);
    map.clear();
    assert_eq!(map.get_byte(65536 - 32), 0);
}

fn cards() -> CardTable {
    CardTable::new(1 << 20, 1 << 20, 1 << 16, 2048)
}

#[test]
fn a_marked_card_is_dirty_and_its_address_is_found_again() {
    let mut table = cards();
    let addr = (1 << 20) + 5000;
    assert_eq!(table.get_card(addr), 0);
    table.mark_card(addr);
    assert_eq!(table.get_card(addr), CardTable::CARD_DIRTY);
    let card = table.card_from_addr(addr);
    assert!(table.is_valid_card(card));
    assert!(table.is_dirty(card));
    assert_eq!(table.addr_from_card(card), (1 << 20) + 4096);
}

#[test]
fn cards_are_cleared_and_reported_in_order() {
    let mut table = cards();
    let base = 1 << 20;
    table.mark_card(base + 9 * 1024);
    table.mark_card(base + 2 * 1024);
    let cleared = table.visit_clear(base, base + 16 * 1024);
    assert_eq!(cleared.len(), 2);
    assert!(cleared[0] < cleared[1]);
    assert!(table.is_clean(table.card_from_addr(base + 9 * 1024)));
}

#[test]
fn a_card_grows_older() {
    assert_eq!(age_card_visitor(CardTable::CARD_DIRTY), CardTable::CARD_DIRTY - 1);
    assert_eq!(age_card_visitor(3), CardTable::CARD_CLEAN);
}

#[test]
fn a_scan_takes_the_cards_of_a_word_up_to_the_last_dirty_one() {
    let mut table = cards();
    let base = 1 << 20;
    let mut bits: HeapBitmap<16> = HeapBitmap::new(base, 64 * 1024);
    bits.set_bit(base + 64);
    bits.set_bit(base + 3 * 1024 + 32);
    bits.set_bit(base + 5 * 1024);
    table.mark_card(base + 3 * 1024);
    let (count, found) =
        table.scan::<false>(&bits, base, base + 32 * 1024, CardTable::CARD_DIRTY);
    assert_eq!(count, 4);
    assert_eq!(found, vec![base + 64, base + 3 * 1024 + 32]);
}

#[test]
fn alignment() {
    assert_eq!(align_down(1000, 64), 960);
    assert_eq!(align_up(1000, 64), 1024);
    assert_eq!(align_up(1024, 64), 1024);
    assert_eq!(align_up(1, 64), 64);
    assert!(is_aligned(1024, 64));
    assert!(!is_aligned(1000, 64));
    assert_eq!(which_power_of_two(4096), 12);
    assert_eq!(round_up_to_power_of_two32(1000), 1024);
    assert_eq!(round_down_to_power_of_two32(1000), 512);
    assert_eq!(round_down(1000, 64), 960);
    assert_eq!(round_up(1000, 64), 1024);
    assert_eq!(round_down(-1, 8), -8);
}

#[test]
fn dyn_bitmap_round_trip() {
    let values = vec![true, false, true, true, false, false, false, false, true];
    let bits = DynBitmap::from_iter(&values);
    assert_eq!(bits.arity(), 9);
    assert_eq!(bits.byte_size(), 2);
    assert_eq!(bits.count_ones(), 4);
    assert_eq!(bits.iter(), values);
    let mut out: Vec<u8> = Vec::new();
    bits.write(&mut out);
    assert_eq!(out, vec![0b1101, 1]);
}

#[test]
fn heuristics_by_name() {
    assert!(matches!(GCHeuristic::from_str("static"), GCHeuristic::Static));
    assert!(matches!(GCHeuristic::from_str("adaptive"), GCHeuristic::Adaptive));
    assert!(matches!(GCHeuristic::from_str("aggressive"), GCHeuristic::Agressive));
    assert!(matches!(GCHeuristic::from_str("Agressive"), GCHeuristic::Agressive));
    assert!(matches!(GCHeuristic::from_str("COMPACT"), GCHeuristic::Compact));
    assert!(matches!(GCHeuristic::from_str("passive"), GCHeuristic::Passive));
}

#[test]
fn bit_set_walks_both_ways() {
    let mut set: BitSet<128> = BitSet::new();
    assert_eq!(set.last(), -1);
    set.set(3, true);
    set.set(70, true);
    assert_eq!(set.next(0), 3);
    assert_eq!(set.next(4), 70);
    assert_eq!(set.next(71), -1);
    assert_eq!(set.last(), 70);
    assert_eq!(set.clear_last_and_find_previous(70), 3);
    assert!(!set.test(70));
    assert!(set.test(3));
    set.reset();
    assert_eq!(set.next(0), -1);
}

#[test]
fn stack_words_are_numbered_by_address() {
    let bounds = StackBounds::from_lowest(4096, 4096);
    let stack = Stack::new(bounds);
    assert_eq!(stack.stack_start(), 8192);
    assert!(stack.is_on_stack(8000, 8100));
    assert!(!stack.is_on_stack(8000, 7000));
}

#[test]
fn leading_zeros() {
    assert_eq!(count_leading_zeros_64(1), 63);
    assert_eq!(count_leading_zeros_64(0), 64);
    assert_eq!(count_leading_zeros_32(1 << 20), 11);
    assert_eq!(count_leading_zeros_8(0xff), 0);
    assert_eq!(count_leading_zeros_64(u64::MAX), 0);
    assert_eq!(count_leading_zeros_64_(64, u64::MAX), 0);
    assert_eq!(count_leading_zeros_64_(8, 1), 7);
    assert_eq!(count_leading_zeros_32_(32, u32::MAX - 3), 0);
    assert_eq!(count_leading_zeros_16_(16, 0), 16);
    assert_eq!(count_leading_zeros_8_(4, 3), 2);
}

#[test]
fn a_size_factor_is_split_off() {
    assert_eq!(split_factor(&b"12k".to_vec()).map(|p| p.1), Some(1024));
    assert_eq!(split_factor(&b"12m".to_vec()).map(|p| p.1), Some(1024 * 1024));
    assert_eq!(split_factor(&b"12gb".to_vec()), Some((2, 1 << 30)));
    assert_eq!(split_factor(&b"12".to_vec()), Some((2, 1)));
    assert_eq!(split_factor(&vec![]), None);
    assert_eq!(scaled(12, 1024), Some(12288));
    assert_eq!(scaled(usize::MAX, 2), None);
}

#[test]
fn what_was_added_to_a_filter_is_not_ruled_out() {
    let mut filter = TinyBloomFilter::new(0);
    assert!(filter.rule_out(0b110));
    filter.add_bits(0b110);
    filter.add_bits(0b1001);
    assert!(!filter.rule_out(0b110));
    assert!(filter.rule_out(0b10110));
    assert!(filter.rule_out(0));
    assert_eq!(filter.bits(), 0b1111);
    filter.reset();
    assert!(filter.rule_out(0b110));
}

#[test]
fn an_aligned_mapping_holds_what_was_asked_for() {
    let size = 8192;
    let alignment = 65536;
    let allocated = allocated_size(size, alignment, 4096);
    assert_eq!(allocated, 8192 + 65536 - 4096);
    let mapping = align_mapping(4096 * 3, size, alignment, allocated);
    let memory = VirtualMemory::from_mapping(&mapping, size);
    assert_eq!(memory.start(), 65536);
    assert_eq!(memory.size(), 8192);
    assert_eq!(memory.end(), 65536 + 8192);
    assert!(memory.contains(65536 + 8191));
    assert!(!memory.contains(65536 + 8192));
}

#[test]
fn memory_region_bounds() {
    let region = MemoryRegion::new(100, 50);
    assert_eq!(region.end(), 150);
    assert!(region.contains(100));
    assert!(!region.contains(150));
}

#[test]
fn root_ranges_are_cut_and_removed() {
    let mut roots = GCRoots::new();
    roots.gc_roots_add_except(
        AddressRange { address_low: 100, address_high: 200 },
        AddressRange { address_low: 120, address_high: 130 },
    );
    roots.gc_roots_add(AddressRange { address_low: 500, address_high: 510 });
    roots.gc_roots_remove_by_range(AddressRange { address_low: 490, address_high: 540 });
    let left: Vec<(usize, usize)> =
        roots.ranges.iter().map(|r| (r.address_low, r.address_high)).collect();
    assert_eq!(left, vec![(100, 120), (130, 200)]);
}

#[test]
fn a_byte_range_is_cleared() {
    let mut map: HeapBytemap<16> = HeapBytemap::new(65536, 4096);
    for k in 0..32 {
        map.set_byte(65536 - 16 * k, 1);
    }
    map.clear_range(65536 - 16 * 10, 65536 - 16 * 4);
    for k in 0..32 {
        let cleared = (5..=10).contains(&k);
        assert_eq!(map.get_byte(65536 - 16 * k), if cleared { 0 } else { 1 });
    }
    map.clear_range(65536, 65536 + 8);
    assert_eq!(map.get_byte(65536), 1);
    map.clear_range(65536 + 3, 65536 + 16);
    assert_eq!(map.get_byte(65536), 0);
}

#[test]
fn counted_bits_are_the_true_ones() {
    let mut bits = DynBitmap::contained(20);
    bits.set(3, true);
    bits.set(17, true);
    bits.set(3, false);
    bits.set(4, true);
    let list = bits.iter();
    assert_eq!(list.len(), 20);
    assert_eq!(list.iter().filter(|b| **b).count(), bits.count_ones());
    assert_eq!(bits.count_ones(), 2);
}

#[test]
fn sizes_fall_in_their_buckets() {
    assert_eq!(bucket_index_for_size(1), 0);
    assert_eq!(bucket_index_for_size(1023), 9);
    assert_eq!(bucket_index_for_size(1024), 10);
    assert_eq!(bucket_index_for_size(u32::MAX as usize), 31);
}
