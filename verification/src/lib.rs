//! Verified core of a concurrent mark-and-sweep garbage collector.

pub mod arena;
pub mod array;
pub mod base;
pub mod bits;
pub mod blocks;
pub mod gc;
pub mod gc_roots;
pub mod heap;
