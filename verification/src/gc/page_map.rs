//! The table that finds the page of an address.

use vstd::prelude::*;

use super::{GC_LEVEL1_MASK, GC_MASK_BITS};

verus! {

/// The part of an address that the table looks at: 36 bits, into which the higher
/// bits are mixed.
pub open spec fn hash_of(ptr: u64) -> u64 {
    (ptr ^ ((ptr >> 33) << 28)) & 0xf_ffff_ffff
}

/// The place of an address in the first level.
pub open spec fn index0(ptr: u64) -> u64 {
    hash_of(ptr) >> 26
}

/// The place of an address in the second level.
pub open spec fn index1(ptr: u64) -> u64 {
    (hash_of(ptr) >> 16) & 1023
}

/// Both places fit in their tables.
proof fn lemma_indices(h: u64)
    by (bit_vector)
    ensures
        ((h & 0xf_ffff_ffffu64) >> 26u64) < 1024u64,
        (((h & 0xf_ffff_ffffu64) >> 16u64) & 1023u64) < 1024u64,
{
}

pub fn gc_hash(ptr: u64) -> (r: u64)
    ensures
        r == hash_of(ptr),
{
    (ptr ^ ((ptr >> 33) << 28)) & 0xf_ffff_ffff
}

/// A table of two levels that leads from an address to the number of a page. Tables
/// of the second level are made when they are needed.
pub struct PageMap {
    level0: Vec<Option<Vec<Option<usize>>>>,
}

impl PageMap {
    pub closed spec fn wf(&self) -> bool {
        &&& self.level0@.len() == 1024
        &&& forall|i: int|
            0 <= i < 1024 ==> (#[trigger] self.level0@[i] matches Some(level1) ==> level1@.len()
                == 1024)
    }

    /// Whether there is a table of the second level for the addresses with place
    /// `i` in the first.
    pub closed spec fn has_level1(&self, i: int) -> bool {
        self.level0@[i] is Some
    }

    /// The pages at all places.
    pub closed spec fn view(&self) -> Seq<Seq<Option<usize>>> {
        Seq::new(
            1024,
            |i: int|
                match self.level0@[i] {
                    Some(level1) => level1@,
                    None => Seq::new(1024, |j: int| None),
                },
        )
    }

    /// The page of an address.
    pub open spec fn page(&self, ptr: u64) -> Option<usize> {
        page_in(self@, ptr)
    }

    /// Whether two addresses have the same place.
    pub open spec fn same_place(p: u64, q: u64) -> bool {
        index0(p) == index0(q) && index1(p) == index1(q)
    }

    /// A table without pages.
    pub fn new() -> (r: Self)
        ensures
            r.wf(),
            r@ == Seq::new(1024, |i: int| Seq::new(1024, |j: int| None::<usize>)),
    {
        let mut level0: Vec<Option<Vec<Option<usize>>>> = Vec::new();
        let mut i: usize = 0;
        while i < 1024
            invariant
                i <= 1024,
                level0@.len() == i,
                forall|k: int| 0 <= k < i ==> #[trigger] level0@[k] is None,
            decreases 1024 - i,
        {
            level0.push(None);
            i = i + 1;
        }
        let r = PageMap { level0 };
        assert(r@ =~~= Seq::new(1024, |i: int| Seq::new(1024, |j: int| None::<usize>)));
        r
    }

    /// Whether there is a table of the second level for an address.
    pub fn get_level1(&self, ptr: u64) -> (r: bool)
        requires
            self.wf(),
        ensures
            r == self.has_level1(index0(ptr) as int),
    {
        proof {
            lemma_indices(ptr ^ ((ptr >> 33) << 28));
        }
        match &self.level0[(gc_hash(ptr) >> 26) as usize] {
            Some(_) => true,
            None => false,
        }
    }

    /// The page of an address.
    pub fn get_page(&self, ptr: u64) -> (r: Option<usize>)
        requires
            self.wf(),
        ensures
            r == self.page(ptr),
    {
        proof {
            lemma_indices(ptr ^ ((ptr >> 33) << 28));
        }
        match &self.level0[(gc_hash(ptr) >> 26) as usize] {
            Some(level1) => level1[((gc_hash(ptr) >> 16) & GC_LEVEL1_MASK) as usize],
            None => None,
        }
    }

    /// Makes a table of the second level for an address that has none.
    pub fn set_level1(&mut self, ptr: u64)
        requires
            old(self).wf(),
            !old(self).has_level1(index0(ptr) as int),
        ensures
            final(self).wf(),
            final(self)@ == old(self)@,
            final(self).has_level1(index0(ptr) as int),
    {
        proof {
            lemma_indices(ptr ^ ((ptr >> 33) << 28));
        }
        let mut level1: Vec<Option<usize>> = Vec::new();
        let mut i: usize = 0;
        while i < 1024
            invariant
                i <= 1024,
                level1@.len() == i,
                forall|k: int| 0 <= k < i ==> #[trigger] level1@[k] is None,
            decreases 1024 - i,
        {
            level1.push(None);
            i = i + 1;
        }
        let ghost before = *self;
        self.level0.set((gc_hash(ptr) >> 26) as usize, Some(level1));
        assert(level1@ =~= Seq::new(1024, |j: int| None::<usize>));
        assert(self@ =~~= before@);
    }

    /// Sets the page of an address. Without a table of the second level there is
    /// no page to take away.
    pub fn set_page(&mut self, ptr: u64, page: Option<usize>)
        requires
            old(self).wf(),
            page is Some ==> old(self).has_level1(index0(ptr) as int),
        ensures
            final(self).wf(),
            final(self)@ == page_set(old(self)@, ptr, page),
    {
        proof {
            lemma_indices(ptr ^ ((ptr >> 33) << 28));
        }
        let i: usize = (gc_hash(ptr) >> 26) as usize;
        let j: usize = ((gc_hash(ptr) >> 16) & GC_LEVEL1_MASK) as usize;
        let ghost before = *self;
        let mut entry: Option<Vec<Option<usize>>> = None;
        std::mem::swap(&mut entry, &mut self.level0[i]);
        match entry {
            Some(mut level1) => {
                level1.set(j, page);
                self.level0.set(i, Some(level1));
            },
            None => {},
        }
        assert(self@ =~~= page_set(before@, ptr, page));
    }

    /// Sets the page of the addresses of `n` pages from `base` on.
    pub fn set_pages(&mut self, base: u64, n: usize, page: Option<usize>)
        requires
            old(self).wf(),
            base + n * 65536 <= u64::MAX,
        ensures
            final(self).wf(),
            final(self)@ == pages_set(old(self)@, base, n as int, page),
    {
        let ghost before = *self;
        let mut i: usize = 0;
        while i < n
            invariant
                i <= n,
                base + n * 65536 <= u64::MAX,
                self.wf(),
                self@ == pages_set(before@, base, i as int, page),
            decreases n - i,
        {
            proof {
                lemma_page_shift(0, i as u64);
            }
            let ptr: u64 = base + ((i as u64) << GC_MASK_BITS);
            assert(ptr == page_address(base, i as int));
            if page.is_some() && !self.get_level1(ptr) {
                self.set_level1(ptr);
            }
            self.set_page(ptr, page);
            i = i + 1;
        }
    }

    /// The first address among those of the pages from `ptr` on that has a page
    /// already, or zero.
    pub fn will_collide(&self, ptr: u64, size: usize) -> (r: u64)
        requires
            self.wf(),
            ptr + size <= u64::MAX,
        ensures
            (forall|i: int|
                0 <= i < size / 65536 ==> self.page(#[trigger] page_address(ptr, i)) is None)
                ==> r == 0,
            forall|i: int|
                {
                    &&& 0 <= i < size / 65536
                    &&& self.page(#[trigger] page_address(ptr, i)) is Some
                    &&& forall|k: int|
                        0 <= k < i ==> self.page(#[trigger] page_address(ptr, k)) is None
                } ==> r == page_address(ptr, i),
    {
        proof {
            lemma_page_shift(size, 0);
        }
        let mut i: usize = 0;
        let n: usize = size >> GC_MASK_BITS;
        while i < n
            invariant
                self.wf(),
                ptr + size <= u64::MAX,
                n == size / 65536,
                i <= n,
                forall|k: int|
                    0 <= k < i ==> self.page(#[trigger] page_address(ptr, k)) is None,
            decreases n - i,
        {
            proof {
                lemma_page_shift(size, i as u64);
                assert(i * 65536 <= size);
            }
            let at: u64 = ptr + ((i as u64) << GC_MASK_BITS);
            assert(at == page_address(ptr, i as int));
            match self.get_page(at) {
                Some(_) => {
                    proof {
                        assert forall|m: int|
                            {
                                &&& 0 <= m < size / 65536
                                &&& self.page(#[trigger] page_address(ptr, m)) is Some
                                &&& forall|k: int|
                                    0 <= k < m ==> self.page(#[trigger] page_address(ptr, k)) is None
                            } implies at == page_address(ptr, m) by {
                            if m > i {
                                assert(self.page(page_address(ptr, i as int)) is None);
                            }
                        }
                    }
                    return at;
                },
                None => {},
            }
            i = i + 1;
        }
        0
    }
}

/// The address of page `i` of the pages from `ptr` on.
pub open spec fn page_address(ptr: u64, i: int) -> u64 {
    (ptr + i * 65536) as u64
}

proof fn lemma_page_shift(size: usize, i: u64)
    by (bit_vector)
    ensures
        size >> 16usize == size / 65536,
        i <= 0xffff_ffff_ffffu64 ==> i << 16usize == i * 65536,
{
}

/// The page of an address, by the pages at all places.
pub open spec fn page_in(table: Seq<Seq<Option<usize>>>, ptr: u64) -> Option<usize> {
    table[index0(ptr) as int][index1(ptr) as int]
}

/// The pages after that of an address has been set.
pub open spec fn page_set(
    table: Seq<Seq<Option<usize>>>,
    ptr: u64,
    page: Option<usize>,
) -> Seq<Seq<Option<usize>>> {
    table.update(
        index0(ptr) as int,
        table[index0(ptr) as int].update(index1(ptr) as int, page),
    )
}

/// The pages after those of `n` addresses from `base` on have been set.
pub open spec fn pages_set(
    table: Seq<Seq<Option<usize>>>,
    base: u64,
    n: int,
    page: Option<usize>,
) -> Seq<Seq<Option<usize>>>
    decreases n,
{
    if n <= 0 {
        table
    } else {
        page_set(pages_set(table, base, n - 1, page), page_address(base, n - 1), page)
    }
}

/// Whether a table has all places.
pub open spec fn table_wf(table: Seq<Seq<Option<usize>>>) -> bool {
    &&& table.len() == 1024
    &&& forall|i: int| 0 <= i < 1024 ==> (#[trigger] table[i]).len() == 1024
}

/// The place of an address is in the table.
pub proof fn lemma_places(ptr: u64)
    ensures
        index0(ptr) < 1024,
        index1(ptr) < 1024,
{
    lemma_indices(ptr ^ ((ptr >> 33) << 28));
}

/// A page that has been set is found at every address of the same place, and no
/// other address changes its page.
pub proof fn lemma_page_set(table: Seq<Seq<Option<usize>>>, ptr: u64, page: Option<usize>, q: u64)
    requires
        table_wf(table),
    ensures
        table_wf(page_set(table, ptr, page)),
        page_in(page_set(table, ptr, page), q) == (if PageMap::same_place(ptr, q) {
            page
        } else {
            page_in(table, q)
        }),
{
    lemma_indices(q ^ ((q >> 33) << 28));
    lemma_indices(ptr ^ ((ptr >> 33) << 28));
}

} // verus!
