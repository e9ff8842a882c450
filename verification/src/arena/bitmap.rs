//! The places at which the objects of an arena start.

use vstd::prelude::*;

use crate::heap::bitmap::{cells_for, edge_slot, rounded_up, HeapBitmap};

verus! {

/// A bit for every place at which an object can start.
pub struct ObjectStartBitmap {
    bits: HeapBitmap<16>,
}

impl ObjectStartBitmap {
    pub closed spec fn bits(&self) -> HeapBitmap<16> {
        self.bits
    }

    /// The places with an object.
    pub open spec fn slots(&self) -> Set<int> {
        self.bits().slots()
    }

    pub open spec fn start(&self) -> int {
        self.bits().start()
    }

    pub open spec fn slot(&self, addr: int) -> int {
        (addr - self.start()) / 16
    }

    pub open spec fn covers(&self, addr: int) -> bool {
        self.bits().covers(addr)
    }

    pub fn bits_per_cell() -> (r: usize)
        ensures
            r == 8,
    {
        8
    }

    pub fn cell_mask() -> (r: usize)
        ensures
            r == 7,
    {
        Self::bits_per_cell() - 1
    }

    pub fn bitmap_size(arena_size: usize) -> (r: usize)
        requires
            arena_size + 127 <= usize::MAX,
        ensures
            r == cells_for(arena_size as int, 16),
    {
        HeapBitmap::<16>::bitmap_size(arena_size)
    }

    pub fn reserved_for_bitmap(arena_size: usize) -> (r: usize)
        requires
            arena_size + 127 <= usize::MAX,
        ensures
            r == rounded_up(cells_for(arena_size as int, 16), 16),
    {
        proof {
            vstd::arithmetic::power2::lemma2_to64();
            assert(16 == vstd::arithmetic::power2::pow2(4));
            assert(crate::bits::is_power_of_two(16));
            assert(cells_for(arena_size as int, 16) == (arena_size + 127) / 128);
        }
        HeapBitmap::<16>::reserved_for_bitmap(arena_size)
    }

    /// A bitmap without objects for the `arena_size` bytes from `offset` on.
    pub fn new(offset: usize, arena_size: usize) -> (r: Self)
        requires
            arena_size + 127 <= usize::MAX,
            offset + arena_size <= usize::MAX,
        ensures
            r.start() == offset,
            r.bits().end() == offset + arena_size,
            r.bits().wf(),
            r.slots() == Set::<int>::empty(),
    {
        ObjectStartBitmap { bits: HeapBitmap::new(offset, arena_size) }
    }

    pub fn offset_index_bit(offset: usize) -> (r: usize)
        ensures
            r == (offset as int / 16) % 8,
    {
        (offset / 16) % Self::bits_per_cell()
    }

    /// Whether `r` is the last start of an object at or before an address, or zero if there
    /// is none.
    pub open spec fn last_start(&self, addr: int, r: int) -> bool {
        let last = self.slot(addr);
        ||| r == 0 && (forall|n: int| 0 <= n <= last ==> !#[trigger] self.slots().contains(n))
        ||| exists|n: int|
            #![trigger self.slots().contains(n)]
            {
                &&& 0 <= n <= last
                &&& self.slots().contains(n)
                &&& r == self.start() + n * 16
                &&& forall|m: int| n < m <= last ==> !#[trigger] self.slots().contains(m)
            }
    }

    /// The start of the object that an address points into: the last start at or before
    /// it, or zero if there is none.
    pub fn find_object_start(&self, maybe_middle_of_an_object: usize) -> (r: usize)
        requires
            self.covers(maybe_middle_of_an_object as int),
        ensures
            self.last_start(maybe_middle_of_an_object as int, r as int),
    {
        match self.bits.last_slot(maybe_middle_of_an_object) {
            None => {
                assert forall|n: int|
                    0 <= n <= self.slot(maybe_middle_of_an_object as int) implies
                    !#[trigger] self.slots().contains(n) by {
                    assert(!self.bits.slots().contains(n));
                }
                0
            },
            Some(n) => {
                let base: usize = self.bits.base();
                assert(self.slots().contains(n as int));
                assert forall|m: int|
                    n < m <= self.slot(maybe_middle_of_an_object as int) implies
                    !#[trigger] self.slots().contains(m) by {
                    assert(!self.bits.slots().contains(m));
                }
                base + n * 16
            },
        }
    }

    pub fn set_bit(&mut self, addr: usize)
        requires
            old(self).covers(addr as int),
        ensures
            final(self).bits().same_shape(&old(self).bits()),
            final(self).slots() == old(self).slots().insert(old(self).slot(addr as int)),
    {
        self.bits.set_bit(addr);
    }

    pub fn clear_bit(&mut self, addr: usize)
        requires
            old(self).covers(addr as int),
        ensures
            final(self).bits().same_shape(&old(self).bits()),
            final(self).slots() == old(self).slots().remove(old(self).slot(addr as int)),
    {
        self.bits.clear_bit(addr);
    }

    pub fn check_bit(&self, addr: usize) -> (r: bool)
        requires
            self.covers(addr as int),
        ensures
            r == self.slots().contains(self.slot(addr as int)),
    {
        self.bits.check_bit(addr)
    }

    pub fn object_start_index_bit(&self, addr: usize) -> (r: (usize, usize))
        requires
            self.start() <= addr,
        ensures
            r.0 == self.slot(addr as int) / 8,
            r.1 == self.slot(addr as int) % 8,
    {
        self.bits.object_start_index_bit(addr)
    }

    /// Forgets the objects in the partly covered cells at both ends of a range.
    pub fn clear_range(&mut self, begin: usize, end: usize)
        requires
            old(self).bits().clearable(begin as int, end as int),
        ensures
            final(self).bits().same_shape(&old(self).bits()),
            final(self).slots() == old(self).slots().filter(
                |k: int| !edge_slot(begin - old(self).start(), end - old(self).start(), 16, k),
            ),
    {
        self.bits.clear_range_edges(begin, end);
    }

    pub fn clear(&mut self)
        ensures
            final(self).bits().same_shape(&old(self).bits()),
            final(self).slots() == Set::<int>::empty(),
    {
        self.bits.clear();
    }
}

/// A piece of memory that is divided into pages.
pub struct Arena {
    pub base: usize,
    pub end: usize,
    pub bmp: ObjectStartBitmap,
    pub nfreepages: usize,
    pub totalpages: usize,
    /// The page that is handed out next, or zero.
    pub freepages: usize,
    /// What the freed pages, in order, have written into them: the page that was to be
    /// handed out next when they were freed.
    pub links: Vec<usize>,
    pub npages: usize,
}

/// The start of the page of an address.
pub fn start_of_page(addr: usize, page_size: usize) -> (r: usize)
    requires
        page_size > 0,
    ensures
        r == addr - addr % page_size,
{
    proof {
        vstd::arithmetic::div_mod::lemma_mod_decreases(addr as nat, page_size as nat);
    }
    addr - addr % page_size
}

/// The first page of a piece of memory.
pub open spec fn first_page(base: int, page_size: int) -> int {
    (base + page_size - 1) - (base + page_size - 1) % page_size
}

impl Arena {
    /// The memory of the arena and its table of objects fit together.
    pub open spec fn wf(&self) -> bool {
        &&& self.base <= self.end
        &&& self.bmp.bits().wf()
        &&& self.bmp.start() == self.base
        &&& self.bmp.bits().end() == self.end
        &&& self.links@.len() == self.nfreepages
    }

    /// An arena for memory that has been allocated. Its pages are handed out from the
    /// first whole one on.
    pub fn new(arena_base: usize, arena_size: usize, page_size: usize) -> (r: Self)
        requires
            0 < page_size,
            arena_base + page_size - 1 <= usize::MAX,
            arena_size + 127 <= usize::MAX,
            arena_base + arena_size <= usize::MAX,
            page_size <= arena_size,
        ensures
            r.wf(),
            r.base == arena_base,
            r.end == arena_base + arena_size,
            r.bmp.slots() == Set::<int>::empty(),
            r.nfreepages == 0,
            r.freepages == first_page(arena_base as int, page_size as int),
            r.npages == (arena_base + arena_size - first_page(arena_base as int, page_size as int))
                / page_size as int,
            r.totalpages == r.npages,
    {
        let arena_end: usize = arena_base + arena_size;
        let firstpage: usize = start_of_page(arena_base + (page_size - 1), page_size);
        let npages: usize = (arena_end - firstpage) / page_size;
        Arena {
            base: arena_base,
            end: arena_end,
            bmp: ObjectStartBitmap::new(arena_base, arena_size),
            nfreepages: 0,
            totalpages: npages,
            freepages: firstpage,
            links: Vec::new(),
            npages,
        }
    }

    /// The start of the object that an address points into, or zero.
    pub fn find_object_start(&self, p: usize) -> (r: usize)
        requires
            self.bmp.covers(p as int),
        ensures
            self.bmp.last_start(p as int, r as int),
    {
        self.bmp.find_object_start(p)
    }

    pub fn set_object_start(&mut self, p: usize)
        requires
            old(self).bmp.covers(p as int),
        ensures
            final(self).bmp.slots() == old(self).bmp.slots().insert(old(self).bmp.slot(p as int)),
            final(self).bmp.bits().same_shape(&old(self).bmp.bits()),
            *final(self) == (Arena { bmp: final(self).bmp, ..*old(self) }),
    {
        self.bmp.set_bit(p);
    }

    pub fn clear_object_start(&mut self, p: usize)
        requires
            old(self).bmp.covers(p as int),
        ensures
            final(self).bmp.slots() == old(self).bmp.slots().remove(old(self).bmp.slot(p as int)),
            final(self).bmp.bits().same_shape(&old(self).bmp.bits()),
            *final(self) == (Arena { bmp: final(self).bmp, ..*old(self) }),
    {
        self.bmp.clear_bit(p);
    }

    pub fn clear_bitmap(&mut self)
        ensures
            final(self).bmp.slots() == Set::<int>::empty(),
            final(self).bmp.bits().same_shape(&old(self).bmp.bits()),
            *final(self) == (Arena { bmp: final(self).bmp, ..*old(self) }),
    {
        self.bmp.clear();
    }

    pub fn clear_range(&mut self, start: usize, end: usize)
        requires
            old(self).bmp.bits().clearable(start as int, end as int),
        ensures
            final(self).bmp.slots() == old(self).bmp.slots().filter(
                |k: int|
                    !edge_slot(start - old(self).bmp.start(), end - old(self).bmp.start(), 16, k),
            ),
            final(self).bmp.bits().same_shape(&old(self).bmp.bits()),
            *final(self) == (Arena { bmp: final(self).bmp, ..*old(self) }),
    {
        self.bmp.clear_range(start, end);
    }

    pub fn contains(&self, addr: usize) -> (r: bool)
        ensures
            r == (self.base <= addr < self.end),
    {
        addr >= self.base && addr < self.end
    }

    pub fn base(&self) -> (r: usize)
        ensures
            r == self.base,
    {
        self.base
    }

    pub fn end(&self) -> (r: usize)
        ensures
            r == self.end,
    {
        self.end
    }

    pub fn size(&self) -> (r: usize)
        requires
            self.base <= self.end,
        ensures
            r == self.end - self.base,
    {
        self.end - self.base
    }
}

} // verus!
