//! A heap of blocks and lines: blocks are handed out one by one or in runs, small
//! objects are bumped through the free lines of a block.

pub mod allocator;
pub mod block_allocator;
pub mod constants;
pub mod heap;
pub mod large_allocator;
pub mod mark;
