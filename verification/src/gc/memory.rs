//! Where pages come from: which address to ask for, and what to do with the answer.

use vstd::prelude::*;

use super::collector::{GarbageCollector, PExtra};
use super::order::range_free;
use super::page_map::{page_address, PageMap};
use super::{EXTRA_SIZE, GC_PAGE_SIZE};

verus! {

/// What comes next after memory for a page has been asked for.
#[derive(Clone, Copy, PartialEq, Eq, Debug, Structural)]
pub enum MapStep {
    /// There is no memory.
    Failed,
    /// The page is at this address.
    Use { base: u64 },
    /// Unmap what was mapped, and map more at this address, so that a page can be
    /// aligned by hand.
    MapExtra { addr: u64, size: usize },
    /// Unmap what was mapped, and ask again.
    Retry,
    /// Unmap what was mapped, hold the given range meanwhile, and ask again.
    RetryHolding { addr: u64, len: u64 },
}

/// Whether pages at `base` would share places with other pages.
pub open spec fn collides(map: &PageMap, base: u64, size: int) -> bool {
    exists|i: int| 0 <= i < size / 65536 && map.page(#[trigger] page_address(base, i)) is Some
}

/// The first address from `base` on, page by page and `fuel` at most, at which pages do
/// not collide with others.
pub open spec fn free_base(map: &PageMap, base: u64, size: int, fuel: nat) -> Option<u64>
    decreases fuel,
{
    if !collides(map, base, size) {
        Some(base)
    } else if fuel == 0 {
        None
    } else {
        free_base(map, (base + 65536) as u64, size, (fuel - 1) as nat)
    }
}

/// The number of addresses that are tried.
pub const BASE_TRIES: usize = 4194304;

impl GarbageCollector {
    /// Chooses the address to ask for. With too many collisions there is none.
    pub fn choose_base(&mut self, size: usize) -> (r: Option<u64>)
        requires
            old(self).wf(),
            0 < old(self).base_addr,
            old(self).base_addr + size + 65536 * BASE_TRIES <= u64::MAX,
        ensures
            final(self).wf(),
            final(self)@ == old(self)@,
            r == free_base(&old(self).map, old(self).base_addr, size as int, (BASE_TRIES - 1) as nat),
            r is Some ==> final(self).base_addr == r->0,
            r matches Some(base) ==> range_free(final(self)@, base, size as int),
            r is None ==> final(self).base_addr == old(self).base_addr + 65536 * BASE_TRIES,
            final(self).same_rest(
                &(GarbageCollector { base_addr: final(self).base_addr, ..*old(self) }),
            ),
    {
        let ghost before = *self;
        let ghost goal = free_base(
            &self.map,
            self.base_addr,
            size as int,
            (BASE_TRIES - 1) as nat,
        );
        let mut base: u64 = self.base_addr;
        let mut i: usize = 0;
        while Self::collides_at(&self.map, base, size)
            invariant
                before == *old(self),
                *self == before,
                self.wf(),
                0 < before.base_addr,
                before.base_addr + size + 65536 * BASE_TRIES <= u64::MAX,
                i < BASE_TRIES,
                base == before.base_addr + 65536 * i,
                goal == free_base(&self.map, before.base_addr, size as int, (BASE_TRIES - 1) as nat),
                goal == free_base(&self.map, base, size as int, (BASE_TRIES - 1 - i) as nat),
            decreases BASE_TRIES - i,
        {
            base = base + GC_PAGE_SIZE as u64;
            i = i + 1;
            // most likely the hash creates too many collisions
            if i >= BASE_TRIES {
                self.base_addr = base;
                assert(self@ =~= before@);
                return None;
            }
        }
        self.base_addr = base;
        assert(self@ =~= before@);
        assert(!collides(&self.map, base, size as int));
        Some(base)
    }

    /// Whether pages at `base` would share places with other pages.
    fn collides_at(map: &PageMap, base: u64, size: usize) -> (r: bool)
        requires
            map.wf(),
            0 < base,
            base + size <= u64::MAX,
        ensures
            r == collides(map, base, size as int),
    {
        let at: u64 = map.will_collide(base, size);
        proof {
            if collides(map, base, size as int) {
                lemma_first_collision(map, base, size as int);
                let i = choose|i: int|
                    {
                        &&& 0 <= i < size / 65536
                        &&& map.page(#[trigger] page_address(base, i)) is Some
                        &&& forall|k: int|
                            0 <= k < i ==> map.page(#[trigger] page_address(base, k)) is None
                    };
                assert(page_address(base, i) == base + i * 65536);
            }
        }
        at != 0
    }

    /// Decides what to do with the memory at `ptr` that was mapped for `size` bytes.
    /// Without memory there is no address.
    pub fn page_mapped(&mut self, ptr: Option<u64>, size: usize) -> (r: MapStep)
        requires
            ptr matches Some(p) ==> p + size <= u64::MAX && p + 65536 <= u64::MAX,
            old(self).recursions < usize::MAX,
            size + EXTRA_SIZE <= usize::MAX,
        ensures
            *final(self) == (GarbageCollector {
                base_addr: final(self).base_addr,
                recursions: final(self).recursions,
                ..*old(self)
            }),
            ptr is None ==> r is Failed && *final(self) == *old(self),
            ptr matches Some(p) ==> {
                &&& p % 65536 == 0 ==> r == (MapStep::Use { base: p }) && final(self).base_addr
                    == p + size && final(self).recursions == old(self).recursions
                &&& p % 65536 != 0 && old(self).recursions >= 5 ==> r == (MapStep::MapExtra {
                    addr: old(self).base_addr,
                    size: (size + EXTRA_SIZE) as usize,
                }) && *final(self) == *old(self)
                &&& p % 65536 != 0 && old(self).recursions < 5 ==> {
                    &&& final(self).recursions == old(self).recursions + 1
                    &&& p > old(self).base_addr ==> r == (MapStep::RetryHolding {
                        addr: p,
                        len: (p - old(self).base_addr) as u64,
                    }) && final(self).base_addr == p - p % 65536 + 65536
                    &&& p <= old(self).base_addr ==> r is Retry
                        && final(self).base_addr == p - p % 65536
                }
            },
    {
        match ptr {
            None => MapStep::Failed,
            Some(p) => {
                if p % 65536 == 0 {
                    self.base_addr = p + size as u64;
                    return MapStep::Use { base: p };
                }
                // recursion limit reached, allocate extra pages to properly align the memory
                if self.recursions >= 5 {
                    return MapStep::MapExtra { addr: self.base_addr, size: size + EXTRA_SIZE };
                }
                self.recursions = self.recursions + 1;
                if p > self.base_addr {
                    let hold: u64 = p - self.base_addr;
                    self.base_addr = p - p % 65536 + 65536;
                    MapStep::RetryHolding { addr: p, len: hold }
                } else {
                    self.base_addr = p - p % 65536;
                    MapStep::Retry
                }
            },
        }
    }

    /// An attempt that was made again has come to an end.
    pub fn retried(&mut self)
        requires
            old(self).recursions > 0,
        ensures
            *final(self) == (GarbageCollector {
                recursions: (old(self).recursions - 1) as usize,
                ..*old(self)
            }),
    {
        self.recursions = self.recursions - 1;
    }

    /// Aligns a page by hand in the memory at `ptr`, of which there is more than the
    /// page needs. The result is the page and the address of the note about it, which
    /// lies where the page leaves room.
    pub fn extra_mapped(&mut self, ptr: u64) -> (r: (u64, u64))
        requires
            ptr + EXTRA_SIZE <= u64::MAX,
        ensures
            *final(self) == (GarbageCollector {
                extra_pages: final(self).extra_pages,
                ..*old(self)
            }),
            r.0 == ptr - ptr % 65536 + 65536,
            r.0 % 65536 == 0,
            ptr < r.0 <= ptr + 65536,
            r.1 == (if ptr % 65536 > EXTRA_SIZE / 2 {
                ptr + EXTRA_SIZE - 24
            } else {
                ptr as int
            }),
            final(self).extra_pages@ == old(self).extra_pages@.push(
                PExtra { page_ptr: r.0, base_ptr: ptr },
            ),
    {
        let offset: u64 = ptr % 65536;
        let aligned: u64 = ptr + (65536 - offset);
        let info: u64 = if offset > EXTRA_SIZE as u64 / 2 {
            ptr + EXTRA_SIZE as u64 - 24
        } else {
            ptr
        };
        self.extra_pages.push(PExtra { page_ptr: aligned, base_ptr: ptr });
        (aligned, info)
    }

    /// The place of the last page with the given address among those that were aligned
    /// by hand.
    pub open spec fn extra_at(extra: Seq<PExtra>, ptr: u64, n: int) -> int
        decreases n,
    {
        if n <= 0 {
            -1
        } else if extra[n - 1].page_ptr == ptr {
            n - 1
        } else {
            Self::extra_at(extra, ptr, n - 1)
        }
    }

    /// Gives up the memory of a page. Only memory that was aligned by hand is unmapped;
    /// the result is the range.
    pub fn free_page_memory(&mut self, ptr: u64, size: usize) -> (r: Option<(u64, usize)>)
        requires
            size + EXTRA_SIZE <= usize::MAX,
        ensures
            *final(self) == (GarbageCollector {
                extra_pages: final(self).extra_pages,
                ..*old(self)
            }),
            ({
                let extra = old(self).extra_pages@;
                let i = Self::extra_at(extra, ptr, extra.len() as int);
                &&& i < 0 ==> r is None && final(self).extra_pages@ == extra
                &&& i >= 0 ==> {
                    &&& final(self).extra_pages@ == extra.remove(i)
                    &&& r == (if extra[i].base_ptr == 0 {
                        None
                    } else {
                        Some((extra[i].base_ptr, (size + EXTRA_SIZE) as usize))
                    })
                }
            }),
    {
        let ghost before = *self;
        let ghost extra = self.extra_pages@;
        let mut n: usize = self.extra_pages.len();
        while n > 0
            invariant
                before == *old(self),
                *self == before,
                extra == before.extra_pages@,
                n <= extra.len(),
                size + EXTRA_SIZE <= usize::MAX,
                Self::extra_at(extra, ptr, n as int) == Self::extra_at(
                    extra,
                    ptr,
                    extra.len() as int,
                ),
            decreases n,
        {
            let e: PExtra = self.extra_pages[n - 1];
            if e.page_ptr == ptr {
                let gone: PExtra = self.extra_pages.remove(n - 1);
                if e.base_ptr == 0 {
                    return None;
                }
                return Some((e.base_ptr, size + EXTRA_SIZE));
            }
            n = n - 1;
        }
        None
    }
}

proof fn lemma_first_collision(map: &PageMap, base: u64, size: int)
    requires
        collides(map, base, size),
    ensures
        exists|i: int|
            {
                &&& 0 <= i < size / 65536
                &&& map.page(#[trigger] page_address(base, i)) is Some
                &&& forall|k: int|
                    0 <= k < i ==> map.page(#[trigger] page_address(base, k)) is None
            },
{
    let i = choose|i: int|
        0 <= i < size / 65536 && map.page(#[trigger] page_address(base, i)) is Some;
    lemma_first_from(map, base, size, i);
}

proof fn lemma_first_from(map: &PageMap, base: u64, size: int, i: int)
    requires
        0 <= i < size / 65536,
        map.page(page_address(base, i)) is Some,
    ensures
        exists|i: int|
            {
                &&& 0 <= i < size / 65536
                &&& map.page(#[trigger] page_address(base, i)) is Some
                &&& forall|k: int|
                    0 <= k < i ==> map.page(#[trigger] page_address(base, k)) is None
            },
    decreases i,
{
    if exists|k: int| 0 <= k < i && map.page(#[trigger] page_address(base, k)) is Some {
        let k = choose|k: int|
            0 <= k < i && map.page(#[trigger] page_address(base, k)) is Some;
        lemma_first_from(map, base, size, k);
    }
}

/// What to do when there is no memory for a page even after a collection.
#[derive(Clone, Copy, PartialEq, Eq, Debug, Structural)]
pub enum OutOfMemory {
    /// Pages have been made meanwhile: try again.
    Again,
    /// A large allocation fails.
    Fail(super::collector::FailedAlloc),
    /// Nothing can be done.
    Abort,
}

/// Decides what to do when there is no memory for `size` bytes. `before` and `after` are
/// the numbers of pages made before and after a collection.
pub fn out_of_memory(before: usize, after: usize, size: usize) -> (r: OutOfMemory)
    ensures
        r == (if before != after {
            OutOfMemory::Again
        } else if size >= 0x80_0000 {
            OutOfMemory::Fail(super::collector::FailedAlloc((size / 1024) as usize))
        } else {
            OutOfMemory::Abort
        }),
{
    if before != after {
        OutOfMemory::Again
    } else if size >= 0x80_0000 {
        OutOfMemory::Fail(super::collector::FailedAlloc(size / 1024))
    } else {
        OutOfMemory::Abort
    }
}

/// The address that is chosen is the first one, page by page, at which no page collides with
/// another. There is none only if all of them collide.
pub proof fn lemma_free_base(map: &PageMap, base: u64, size: int, fuel: nat)
    requires
        base + 65536 * fuel <= u64::MAX,
    ensures
        match free_base(map, base, size, fuel) {
            Some(p) => {
                &&& base <= p <= base + 65536 * fuel
                &&& (p - base) % 65536 == 0
                &&& !collides(map, p, size)
                &&& forall|k: int|
                    0 <= k < (p - base) / 65536 ==> #[trigger] collides(
                        map,
                        (base + 65536 * k) as u64,
                        size,
                    )
            },
            None => forall|k: int|
                0 <= k <= fuel ==> #[trigger] collides(map, (base + 65536 * k) as u64, size),
        },
    decreases fuel,
{
    if collides(map, base, size) && fuel > 0 {
        let next = (base + 65536) as u64;
        lemma_free_base(map, next, size, (fuel - 1) as nat);
        let r = free_base(map, next, size, (fuel - 1) as nat);
        let end: int = match r {
            Some(p) => (p - base) / 65536,
            None => fuel as int + 1,
        };
        assert forall|k: int| 0 <= k < end implies #[trigger] collides(
            map,
            (base + 65536 * k) as u64,
            size,
        ) by {
            if k > 0 {
                assert(next + 65536 * (k - 1) == base + 65536 * k);
                assert(collides(map, (next + 65536 * (k - 1)) as u64, size));
            }
        }
    } else if collides(map, base, size) {
        assert forall|k: int| 0 <= k <= fuel implies #[trigger] collides(
            map,
            (base + 65536 * k) as u64,
            size,
        ) by {
            assert(k == 0);
        }
    }
}

} // verus!
