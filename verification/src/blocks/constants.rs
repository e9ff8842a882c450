//! The sizes of words, lines and blocks.

use vstd::prelude::*;

verus! {

pub const WORD_SIZE_BITS: usize = 3;

pub const WORD_SIZE: usize = 8;

pub const ALLOCATION_ALIGNMENT_WORDS: usize = 2;

pub const ALLOCATION_ALIGNMENT: usize = 16;

pub const BLOCK_SIZE_BITS: usize = 15;

pub const LINE_SIZE_BITS: usize = 8;

pub const BLOCK_COUNT_BITS: usize = 24;

pub const LINE_METADATA_SIZE_BITS: usize = 0;

pub const BLOCK_TOTAL_SIZE: usize = 32768;

pub const LINE_SIZE: usize = 256;

pub const LINE_METADATA_SIZE: usize = 1;

pub const MAX_BLOCK_COUNT: usize = 16777216;

pub const LINE_COUNT: usize = 128;

pub const WORDS_IN_LINE: usize = 32;

pub const WORDS_IN_BLOCK: usize = 4096;

pub const BLOCK_SIZE_IN_BYTES_MASK: usize = 32767;

pub const LARGE_BLOCK_SIZE_BITS: usize = 13;

pub const LARGE_BLOCK_SIZE: usize = 8192;

pub const LARGE_OBJECT_MIN_SIZE_BITS: usize = 13;

pub const MIN_BLOCK_SIZE: usize = 8192;

pub const EARLY_GROW_THRESHOLD: usize = 134217728;

/// What is noted of a block besides its own header: a byte for every line, and one for
/// every place where an object can start.
pub const METADATA_PER_BLOCK_TABLES: usize = 2176;

pub const MIN_HEAP_SIZE: usize = 1048576;

/// The space that a block takes, all told, if its header takes `meta_size` bytes.
pub open spec fn space_used_per_block(meta_size: int) -> int {
    BLOCK_TOTAL_SIZE + meta_size + METADATA_PER_BLOCK_TABLES
}

} // verus!
