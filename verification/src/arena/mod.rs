//! Arenas of pages, each of which holds objects of one size.

use vstd::prelude::*;

pub mod bitmap;
pub mod collection;
pub mod free_list;
pub mod size_classes;

pub use crate::base::utils::{round_down, round_up};

verus! {

/// What a piece of memory is used for.
#[derive(Clone, Copy, PartialEq, Eq, Debug, Structural)]
pub enum MemoryType {
    Arena,
    Large,
}

/// The size of the objects' grain.
pub const WORD: usize = 16;

/// What a page starts with: its successor and its arena.
pub const PAGE_HEADER: usize = 16;

/// Rounds `value` up to a multiple of `align`, if there is one.
pub fn align_usize(value: usize, align: usize) -> (r: usize)
    requires
        align != 0 ==> value + align - 1 <= usize::MAX,
    ensures
        align == 0 ==> r == value,
        align != 0 ==> r == (value + align - 1) / align as int * align,
{
    if align == 0 {
        return value;
    }
    proof {
        let n = (value + align - 1) as int;
        vstd::arithmetic::div_mod::lemma_fundamental_div_mod(n, align as int);
        assert((n / align as int) * align == align * (n / align as int)) by (nonlinear_arith);
    }
    ((value + (align - 1)) / align) * align
}

/// A large object, which has memory of its own.
#[derive(Clone, Copy, PartialEq, Eq, Debug, Structural)]
pub struct LargeObject {
    pub start: usize,
    pub payload_size: usize,
}

impl LargeObject {
    /// The space in front of the object: two words, rounded up.
    pub fn page_header_size() -> (r: usize)
        ensures
            r == 32,
    {
        32
    }

    pub fn allocation_size(size: usize) -> (r: usize)
        requires
            size + 32 <= usize::MAX,
        ensures
            r == size + 32,
    {
        Self::page_header_size() + size
    }

    pub fn payload_start(&self) -> (r: usize)
        requires
            self.start + 32 <= usize::MAX,
        ensures
            r == self.start + 32,
    {
        self.start + Self::page_header_size()
    }

    /// The end of the payload, counted from the start of the memory.
    pub fn payload_end(&self) -> (r: usize)
        requires
            self.start + self.payload_size <= usize::MAX,
        ensures
            r == self.start + self.payload_size,
    {
        self.start + self.payload_size
    }

    /// The memory of the object that starts at `obj`.
    pub fn start_of(obj: usize) -> (r: usize)
        requires
            obj >= 32,
        ensures
            r == obj - 32,
    {
        obj - Self::page_header_size()
    }
}

} // verus!
