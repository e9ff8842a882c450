//! Small building blocks: bit tricks, bit sets, stacks and mapped memory.

pub mod bitset;
pub mod stack;
pub mod utils;
pub mod virtual_memory;
