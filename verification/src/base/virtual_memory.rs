//! Mapped memory: how much is asked for, and what of it is kept.

use vstd::arithmetic::power2::lemma2_to64;
use vstd::prelude::*;

use crate::heap::{lemma_log2_unique, log2_floor};

verus! {

/// What may be done with memory.
#[derive(Clone, Copy, PartialEq, Eq, PartialOrd, Ord, Debug, Structural)]
pub enum Protection {
    NoAccess,
    ReadOnly,
    ReadWrite,
    ReadExecute,
    ReadWriteExecute,
}

/// A range of addresses.
#[derive(Clone, Copy, PartialEq, Eq, Debug, Structural)]
pub struct MemoryRegion {
    pub start: usize,
    pub size: usize,
}

impl MemoryRegion {
    pub open spec fn wf(&self) -> bool {
        self.start + self.size <= usize::MAX
    }

    pub open spec fn spec_end(&self) -> int {
        self.start + self.size
    }

    pub open spec fn holds(&self, address: int) -> bool {
        self.start <= address < self.start + self.size
    }

    pub fn new(start: usize, size: usize) -> (r: Self)
        ensures
            r == (MemoryRegion { start, size }),
    {
        MemoryRegion { start, size }
    }

    pub fn end(&self) -> (r: usize)
        requires
            self.wf(),
        ensures
            r == self.spec_end(),
    {
        self.start + self.size
    }

    pub fn contains(&self, address: usize) -> (r: bool)
        requires
            self.wf(),
        ensures
            r == self.holds(address as int),
    {
        address >= self.start && address < self.start + self.size
    }
}

/// Memory that has been mapped: the range that is used, the same memory at other
/// addresses, if it has any, and all that was reserved for it.
#[derive(Clone, Copy, PartialEq, Eq, Debug, Structural)]
pub struct VirtualMemory {
    pub region: MemoryRegion,
    pub alias: MemoryRegion,
    pub reserved: MemoryRegion,
}

/// Memory that has been cut to size: where it starts, and what of the mapping has to be
/// given back, before it and behind it.
#[derive(Clone, Copy, PartialEq, Eq, Debug, Structural)]
pub struct AlignedMapping {
    pub address: usize,
    pub before: MemoryRegion,
    pub behind: MemoryRegion,
}

/// `x` rounded up to a multiple of `n`.
pub open spec fn rounded_up(x: int, n: int) -> int {
    (x + n - 1) / n * n
}

/// How much has to be mapped so that `size` bytes can be cut out of it that start at a
/// multiple of `alignment`. A mapping starts at a page.
pub fn allocated_size(size: usize, alignment: usize, page_size: usize) -> (r: usize)
    requires
        size + alignment <= usize::MAX,
        page_size <= size + alignment,
    ensures
        r == size + alignment - page_size,
{
    size + alignment - page_size
}

/// Cuts `size` bytes that start at a multiple of `alignment` out of a mapping.
pub fn align_mapping(base: usize, size: usize, alignment: usize, allocated: usize) -> (r:
    AlignedMapping)
    requires
        0 < alignment,
        base + alignment - 1 <= usize::MAX,
        base + allocated <= usize::MAX,
        rounded_up(base as int, alignment as int) + size <= base + allocated,
    ensures
        r.address == rounded_up(base as int, alignment as int),
        r.address % alignment == 0,
        r.before == (MemoryRegion { start: base, size: (r.address - base) as usize }),
        r.behind.start == r.address + size,
        r.behind.spec_end() == base + allocated,
{
    let n: usize = base + (alignment - 1);
    proof {
        vstd::arithmetic::div_mod::lemma_fundamental_div_mod(n as int, alignment as int);
        let q = n as int / alignment as int;
        assert(q * alignment == alignment * q) by (nonlinear_arith);
        vstd::arithmetic::div_mod::lemma_mod_multiples_basic(q, alignment as int);
    }
    let address: usize = n / alignment * alignment;
    AlignedMapping {
        address,
        before: MemoryRegion { start: base, size: address - base },
        behind: MemoryRegion {
            start: address + size,
            size: base + allocated - (address + size),
        },
    }
}

/// A mapping that is as large as it has to be can always be cut.
pub proof fn lemma_large_enough(base: int, size: int, alignment: int, page_size: int)
    requires
        0 < page_size,
        0 < alignment,
        alignment % page_size == 0,
        base % page_size == 0,
        0 <= base,
        0 <= size,
    ensures
        rounded_up(base, alignment) + size <= base + (size + alignment - page_size),
        base <= rounded_up(base, alignment),
{
    let n = base + alignment - 1;
    vstd::arithmetic::div_mod::lemma_fundamental_div_mod(n, alignment);
    let q = n / alignment;
    let a = q * alignment;
    assert(a == alignment * q) by (nonlinear_arith)
        requires
            a == q * alignment,
    ;
    let c = alignment / page_size;
    let b = base / page_size;
    vstd::arithmetic::div_mod::lemma_fundamental_div_mod(alignment, page_size);
    vstd::arithmetic::div_mod::lemma_fundamental_div_mod(base, page_size);
    assert(a == page_size * (c * q)) by (nonlinear_arith)
        requires
            a == alignment * q,
            alignment == page_size * c,
    ;
    let end = b + c;
    assert(base + alignment == page_size * end) by (nonlinear_arith)
        requires
            base == page_size * b,
            alignment == page_size * c,
            end == b + c,
    ;
    assert(a < base + alignment);
    assert(c * q < end) by (nonlinear_arith)
        requires
            page_size * (c * q) < page_size * end,
            page_size > 0,
    ;
    assert(page_size * (c * q) <= page_size * (end - 1)) by (nonlinear_arith)
        requires
            c * q <= end - 1,
            page_size > 0,
    ;
    assert(page_size * (end - 1) == page_size * end - page_size) by (nonlinear_arith);
}

impl VirtualMemory {
    pub fn new(region: MemoryRegion, alias: MemoryRegion, reserved: MemoryRegion) -> (r: Self)
        ensures
            r == (VirtualMemory { region, alias, reserved }),
    {
        VirtualMemory { region, alias, reserved }
    }

    /// The memory that was cut out of a mapping.
    pub fn from_mapping(mapping: &AlignedMapping, size: usize) -> (r: Self)
        ensures
            r.region == (MemoryRegion { start: mapping.address, size }),
            r.alias == r.region,
            r.reserved == r.region,
    {
        let region = MemoryRegion::new(mapping.address, size);
        VirtualMemory::new(region, region, region)
    }

    pub fn start(&self) -> (r: usize)
        ensures
            r == self.region.start,
    {
        self.region.start
    }

    pub fn end(&self) -> (r: usize)
        requires
            self.region.wf(),
        ensures
            r == self.region.spec_end(),
    {
        self.region.end()
    }

    pub fn address(&self) -> (r: usize)
        ensures
            r == self.region.start,
    {
        self.region.start
    }

    pub fn size(&self) -> (r: usize)
        ensures
            r == self.region.size,
    {
        self.region.size
    }

    pub fn alias_offset(&self) -> (r: usize)
        requires
            self.region.start <= self.alias.start,
        ensures
            r == self.alias.start - self.region.start,
    {
        self.alias.start - self.region.start
    }

    pub fn contains(&self, address: usize) -> (r: bool)
        requires
            self.region.wf(),
        ensures
            r == self.region.holds(address as int),
    {
        self.region.contains(address)
    }

    pub fn contains_alias(&self, address: usize) -> (r: bool)
        requires
            self.region.start <= self.alias.start,
            self.alias.wf(),
        ensures
            r == (self.alias.start != self.region.start && self.alias.holds(address as int)),
    {
        self.alias_offset() != 0 && self.alias.contains(address)
    }

    pub fn vm_owns_region(&self) -> (r: bool)
        ensures
            r == (self.reserved.start != 0),
    {
        self.reserved.start != 0
    }

    /// Whether two addresses lie in the same page.
    pub fn in_same_page(address0: usize, address1: usize, page_size: usize) -> (r: bool)
        requires
            page_size > 0,
        ensures
            r == (address0 / page_size == address1 / page_size),
    {
        address0 / page_size == address1 / page_size
    }

    /// Whole pages that cover a range.
    pub fn page_range(address: usize, size: usize, page_size: usize) -> (r: MemoryRegion)
        requires
            page_size > 0,
            address + size <= usize::MAX,
        ensures
            r.start == address - address % page_size,
            r.spec_end() == address + size,
    {
        proof {
            vstd::arithmetic::div_mod::lemma_mod_decreases(address as nat, page_size as nat);
        }
        let start: usize = address - address % page_size;
        MemoryRegion { start, size: address + size - start }
    }

    /// Makes the memory smaller. Returns the range that is to be given back, and that of
    /// its alias, as far as there are such.
    pub fn truncate(&mut self, new_size: usize) -> (r: (Option<MemoryRegion>, Option<MemoryRegion>))
        requires
            old(self).region.wf(),
            old(self).alias.wf(),
            old(self).region.start <= old(self).alias.start,
            new_size <= old(self).region.size,
            new_size <= old(self).alias.size,
        ensures
            ({
                let whole = old(self).reserved.size == old(self).region.size;
                let v = *old(self);
                &&& r.0 == if whole {
                    Some(
                        MemoryRegion {
                            start: (v.region.start + new_size) as usize,
                            size: (v.region.size - new_size) as usize,
                        },
                    )
                } else {
                    None
                }
                &&& r.1 == if whole && v.alias.start != v.region.start {
                    Some(
                        MemoryRegion {
                            start: (v.alias.start + new_size) as usize,
                            size: (v.alias.size - new_size) as usize,
                        },
                    )
                } else {
                    None
                }
                &&& *final(self) == (VirtualMemory {
                    region: MemoryRegion { size: new_size, ..v.region },
                    alias: MemoryRegion { size: new_size, ..v.alias },
                    reserved: MemoryRegion {
                        size: if whole {
                            new_size
                        } else {
                            v.reserved.size
                        },
                        ..v.reserved
                    },
                })
            }),
    {
        let mut freed: Option<MemoryRegion> = None;
        let mut freed_alias: Option<MemoryRegion> = None;
        if self.reserved.size == self.region.size {
            freed =
            Some(
                MemoryRegion {
                    start: self.region.start + new_size,
                    size: self.region.size - new_size,
                },
            );
            self.reserved.size = new_size;
            if self.alias_offset() != 0 {
                freed_alias =
                Some(
                    MemoryRegion {
                        start: self.alias.start + new_size,
                        size: self.alias.size - new_size,
                    },
                );
            }
        }
        self.region.size = new_size;
        self.alias.size = new_size;
        (freed, freed_alias)
    }
}

proof fn lemma_small_shifts(val: usize)
    by (bit_vector)
    requires
        val <= 0xffff_ffff,
    ensures
        (val & 0xffff_0000) != 0 <==> val >= 0x1_0000,
        val >> 16usize == val / 0x1_0000,
        val >> 8usize == val / 256,
        val >> 4usize == val / 16,
        val >> 2usize == val / 4,
        val >> 1usize == val / 2,
{
}

/// The exponent of the highest power of two in a number. Nothing is found in zero.
pub fn log2(val: usize) -> (r: usize)
    requires
        val <= u32::MAX,
    ensures
        val > 0 ==> r == log2_floor(val as int),
        val == 0 ==> r == 0,
{
    let mut v: usize = val;
    let mut log: usize = 0;
    proof {
        lemma2_to64();
        lemma_small_shifts(v);
    }
    if (v & 0xFFFF0000) != 0 {
        v = v >> 16usize;
        log = log + 16;
    }
    proof {
        lemma_small_shifts(v);
    }
    assert(log == 0 || log == 16);
    assert(v < 0x1_0000);
    assert(log == 0 ==> v == val);
    assert(log == 16 ==> v == val / 0x1_0000 && v >= 1);
    if v >= 256 {
        v = v >> 8usize;
        log = log + 8;
    }
    proof {
        lemma_small_shifts(v);
    }
    assert(v < 256);
    if v >= 16 {
        v = v >> 4usize;
        log = log + 4;
    }
    proof {
        lemma_small_shifts(v);
    }
    assert(v < 16);
    if v >= 4 {
        v = v >> 2usize;
        log = log + 2;
    }
    proof {
        lemma_small_shifts(v);
    }
    let r: usize = log + (v >> 1usize);
    proof {
        if val > 0 {
            lemma_log2_unique(val as int, r as nat);
        }
    }
    r
}

} // verus!
