//! A mark-and-sweep collector of pages: every page holds blocks of one size, and a
//! list of the runs of blocks that are free.

use vstd::prelude::*;

pub mod collector;
pub mod free_runs;
pub mod marking;
pub mod memory;
pub mod order;
pub mod page;
pub mod page_map;

verus! {

pub const GC_PAGE_BITS: usize = 16;

pub const GC_PAGE_SIZE: usize = 65536;

pub const GC_LEVEL0_BITS: usize = 10;

pub const GC_LEVEL1_BITS: usize = 10;

pub const GC_MASK_BITS: usize = 16;

pub const PAGE_KIND_BITS: usize = 2;

pub const PAGE_KIND_MASK: usize = 3;

pub const GC_LEVEL1_MASK: u64 = 1023;

pub const GC_PARTITIONS: usize = 9;

pub const GC_PART_BITS: usize = 4;

pub const GC_FIXED_PARTS: usize = 5;

pub const GC_LARGE_PART: usize = 8;

pub const GC_LARGE_BLOCK: usize = 1048576;

pub const GC_ALIGN_BITS: usize = 3;

pub const GC_ALL_PAGES: usize = 36;

pub const GC_ALIGN: usize = 8;

/// Memory whose words say what they are.
pub const MEM_KIND_DYNAMIC: i32 = 0;

/// Memory in which every word may be a pointer.
pub const MEM_KIND_RAW: i32 = 1;

/// Memory without pointers.
pub const MEM_KIND_NOPTR: i32 = 2;

/// Memory without pointers whose objects have finalizers.
pub const MEM_KIND_FINALIZE: i32 = 3;

/// Whether objects of a kind may hold pointers.
pub open spec fn has_ptr(kind: i32) -> bool {
    kind != MEM_KIND_NOPTR && kind != MEM_KIND_FINALIZE
}

/// Whether objects of a kind may hold pointers.
pub fn mem_has_ptr(kind: i32) -> (r: bool)
    ensures
        r == has_ptr(kind),
{
    kind != MEM_KIND_NOPTR && kind != MEM_KIND_FINALIZE
}

/// The block size of a partition. Those of the fixed partitions come first; the last
/// partition is for large objects.
pub open spec fn block_size_of(part: int) -> int {
    if part == 0 {
        8
    } else if part == 1 {
        16
    } else if part == 2 {
        24
    } else if part == 3 {
        32
    } else if part == 4 {
        40
    } else if part == 5 {
        8
    } else if part == 6 {
        64
    } else if part == 7 {
        8192
    } else {
        0
    }
}

/// The block size of a partition.
pub fn partition_block(part: usize) -> (r: usize)
    requires
        part < GC_PARTITIONS,
    ensures
        r == block_size_of(part as int),
{
    if part < GC_FIXED_PARTS {
        8 * (part + 1)
    } else if part == 5 {
        8
    } else if part == 6 {
        64
    } else if part == 7 {
        8192
    } else {
        0
    }
}

/// The number of blocks of `size` bytes, in a partition for objects of several blocks.
pub open spec fn blocks_for(part: int, size: int) -> int {
    if part == 5 {
        size / 8
    } else if part == 6 {
        size / 64
    } else if part == 7 {
        size / 8192
    } else {
        size
    }
}

/// The number of blocks of `size` bytes.
pub fn partition_blocks(part: usize, size: usize) -> (r: usize)
    ensures
        r == blocks_for(part as int, size as int),
{
    if part == 5 {
        size / 8
    } else if part == 6 {
        size / 64
    } else if part == 7 {
        size / 8192
    } else {
        size
    }
}

/// What is mapped besides when a page has to be aligned by hand.
pub const EXTRA_SIZE: usize = 69632;

} // verus!
