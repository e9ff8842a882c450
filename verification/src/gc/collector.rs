//! The collector: pages by partition and kind, allocation, and marking from roots and
//! stacks, word by word.

use vstd::prelude::*;

use super::free_runs::{FreeListStore, GcFl, GcFreeList, StoreView};
use super::marking::pages_ready;
use super::order::{
    blocks_markable, in_order, lemma_new_page_order, lemma_order_kept, lemma_order_ready,
    lemma_partition_markable, lemma_settled_same, range_free, same_page, same_pages,
};
use super::page::{
    block_taken, flush_view, fresh_page, object_placed, run_with, runs_positive, start_pos,
    GcAllocatorPageData, GcPHeader, PageView,
};
use super::page_map::{pages_set, PageMap};
use super::{
    block_size_of, blocks_for, partition_block, partition_blocks, GC_ALL_PAGES, GC_FIXED_PARTS,
    GC_LARGE_BLOCK, GC_LARGE_PART, GC_PAGE_SIZE, GC_PARTITIONS, MEM_KIND_FINALIZE,
};

verus! {

/// Counters of the collector.
#[derive(Clone, Copy, PartialEq, Eq, Debug, Structural)]
pub struct GcStats {
    pub total_requested: i64,
    pub total_allocated: i64,
    pub last_mark: i64,
    pub last_mark_allocs: i64,
    pub pages_total_memory: i64,
    pub allocation_count: i64,
    pub pages_count: usize,
    pub pages_allocated: usize,
    pub pages_blocks: usize,
    pub mark_bytes: usize,
    pub mark_time: usize,
    pub mark_count: usize,
    pub alloc_time: usize,
}

/// A page that was aligned by hand: where it lies, and where what was mapped for it
/// starts.
#[derive(Clone, Copy, PartialEq, Eq, Debug, Structural)]
pub struct PExtra {
    pub page_ptr: u64,
    pub base_ptr: u64,
}

/// The error of an allocation for which there is no memory, in units of 1024 bytes.
#[derive(Clone, Copy, PartialEq, Eq, Debug, Structural)]
pub struct FailedAlloc(pub usize);

/// The bounds of a stack.
#[derive(Clone, Copy, PartialEq, Eq, Debug, Structural)]
pub struct StackBounds {
    pub origin: u64,
    pub bound: u64,
}

pub struct GarbageCollector {
    pub map: PageMap,
    pub headers: Vec<GcPHeader>,
    /// Headers that are not in use; the last one is used first.
    pub free_pheaders: Vec<usize>,
    /// The pages of every partition and kind, the newest last.
    pub gc_pages: Vec<Vec<usize>>,
    /// For every partition and kind, how many of its pages, counted from the oldest,
    /// may have free blocks.
    pub gc_free_pages: Vec<usize>,
    pub store: FreeListStore,
    pub mark_stack: Vec<u64>,
    pub mark_size: usize,
    /// The last one is found first.
    pub extra_pages: Vec<PExtra>,
    pub base_addr: u64,
    pub recursions: usize,
    pub stats: GcStats,
}

/// What the contracts say of the pages of a collector.
#[verifier::ext_equal]
pub struct GcView {
    pub pages: Seq<PageView>,
    pub spare: Seq<usize>,
    pub lists: Seq<Seq<usize>>,
    pub free: Seq<int>,
    pub store: StoreView,
    pub table: Seq<Seq<Option<usize>>>,
    pub stats: GcStats,
}

/// A header without blocks.
pub open spec fn blank_page(base: u64, size: int, kind: i32) -> PageView {
    PageView {
        base,
        page_size: size,
        page_kind: kind,
        block_size: 0,
        max_blocks: 0,
        first_block: 0,
        need_flush: false,
        current: 0,
        bits: 0,
        runs: Seq::empty(),
        sizes: None,
        bmp: None,
    }
}

/// The counters after a page of `size` bytes with `blocks` blocks has been added.
pub open spec fn stats_added(s: GcStats, size: int, blocks: int) -> GcStats {
    GcStats {
        pages_count: s.pages_count.wrapping_add(1),
        pages_blocks: s.pages_blocks.wrapping_add(blocks as usize),
        pages_allocated: s.pages_allocated.wrapping_add(1),
        pages_total_memory: s.pages_total_memory.wrapping_add(size as i64),
        mark_bytes: s.mark_bytes.wrapping_add(((blocks + 7) / 8) as usize),
        ..s
    }
}

/// The counters after such a page has been removed.
pub open spec fn stats_removed(s: GcStats, size: int, blocks: int) -> GcStats {
    GcStats {
        pages_count: s.pages_count.wrapping_sub(1),
        pages_blocks: s.pages_blocks.wrapping_sub(blocks as usize),
        pages_total_memory: s.pages_total_memory.wrapping_sub(size as i64),
        mark_bytes: s.mark_bytes.wrapping_sub(((blocks + 7) / 8) as usize),
        ..s
    }
}

/// The number of the header for the next page.
pub open spec fn next_header(g: GcView) -> int {
    if g.spare.len() > 0 {
        g.spare.last() as int
    } else {
        g.pages.len() as int
    }
}

/// The pages after one of `size` bytes at `base` has been added.
pub open spec fn page_added(g: GcView, base: u64, size: int, kind: i32, blocks: int) -> GcView {
    let id = next_header(g);
    let header = blank_page(base, size, kind);
    GcView {
        pages: if g.spare.len() > 0 {
            g.pages.update(id, header)
        } else {
            g.pages.push(header)
        },
        spare: if g.spare.len() > 0 {
            g.spare.drop_last()
        } else {
            g.spare
        },
        stats: stats_added(g.stats, size, blocks),
        table: pages_set(g.table, base, size / 65536, Some(id as usize)),
        ..g
    }
}

/// The pages after one has been removed.
pub open spec fn page_removed(g: GcView, id: int, blocks: int) -> GcView {
    let p = g.pages[id];
    GcView {
        spare: g.spare.push(id as usize),
        stats: stats_removed(g.stats, p.page_size, blocks),
        table: pages_set(g.table, p.base, p.page_size / 65536, None),
        ..g
    }
}

/// The size of a new page: doubled as long as there are many pages already and the
/// blocks can be counted.
pub open spec fn grown_size(num_pages: int, block: int, size: int) -> int
    decreases num_pages,
{
    if block < 256 && num_pages > 8 && 2 * size / block <= 65536 {
        grown_size(num_pages / 3, block, 2 * size)
    } else {
        size
    }
}

/// The pages after a page with blocks has been made for partition and kind `pid`.
pub open spec fn new_paged(
    g: GcView,
    pid: int,
    block: int,
    size: int,
    kind: i32,
    varsize: bool,
    base: u64,
) -> GcView {
    let g1 = page_added(g, base, size, kind, size / block);
    let (page, store) = fresh_page(base, block, size, kind, varsize, g1.store);
    let id = next_header(g);
    GcView {
        pages: g1.pages.update(id, page),
        store,
        lists: g1.lists.update(pid, g1.lists[pid].push(id as usize)),
        ..g1
    }
}

/// Whether a page of this kind can be made.
pub open spec fn page_possible(block: int, size: int, varsize: bool, base: u64) -> bool {
    &&& block > 0
    &&& 0 <= size <= i32::MAX
    &&& size / block <= 0xffff
    &&& start_pos(block, size / block, varsize) / block <= size / block
    &&& base + size <= u64::MAX
    &&& base % 65536 == 0
}

impl GarbageCollector {
    pub open spec fn view(&self) -> GcView {
        GcView {
            pages: Seq::new(self.headers@.len(), |i: int| self.headers@[i]@),
            spare: self.free_pheaders@,
            lists: Seq::new(self.gc_pages@.len(), |i: int| self.gc_pages@[i]@),
            free: Seq::new(self.gc_free_pages@.len(), |i: int| self.gc_free_pages@[i] as int),
            store: self.store@,
            table: self.map@,
            stats: self.stats,
        }
    }

    /// Lists and headers fit together, and every page is in order.
    pub open spec fn wf(&self) -> bool {
        &&& self.map.wf()
        &&& self.store.wf()
        &&& self.gc_pages@.len() == GC_ALL_PAGES
        &&& self.gc_free_pages@.len() == GC_ALL_PAGES
        &&& forall|pid: int|
            0 <= pid < GC_ALL_PAGES ==> (#[trigger] self.gc_free_pages@[pid])
                <= self.gc_pages@[pid]@.len()
        &&& forall|pid: int, k: int|
            0 <= pid < GC_ALL_PAGES && 0 <= k < self.gc_pages@[pid]@.len() ==> (
            #[trigger] self.gc_pages@[pid]@[k]) < self.headers@.len()
        &&& forall|i: int|
            0 <= i < self.free_pheaders@.len() ==> (#[trigger] self.free_pheaders@[i])
                < self.headers@.len()
        &&& forall|i: int|
            0 <= i < self.headers@.len() ==> {
                &&& (#[trigger] self.headers@[i]).wf()
                &&& self.headers@[i].alloc.need_flush ==> self.headers@[i].bmp is Some
                &&& self.headers@[i].base + self.headers@[i].page_size <= u64::MAX
                &&& self.headers@[i].page_size <= i32::MAX
            }
    }

    /// A collector without pages.
    pub fn new() -> (r: Self)
        ensures
            r.wf(),
            r@.pages == Seq::<PageView>::empty(),
            r@.spare == Seq::<usize>::empty(),
            r@.lists == Seq::new(GC_ALL_PAGES as nat, |i: int| Seq::<usize>::empty()),
            r@.free == Seq::new(GC_ALL_PAGES as nat, |i: int| 0int),
            r@.store == (StoreView { counts: Seq::new(32, |i: int| 0int), size: 0, count: 0 }),
            r@.table == Seq::new(1024, |i: int| Seq::new(1024, |j: int| None::<usize>)),
            r.mark_stack@ == Seq::<u64>::empty(),
            r.mark_size == 0,
            r.extra_pages@ == Seq::<PExtra>::empty(),
            r.base_addr == 0x4000_0000,
            r.recursions == 0,
            in_order(r@),
            pages_ready(&r),
    {
        let mut gc_pages: Vec<Vec<usize>> = Vec::new();
        let mut gc_free_pages: Vec<usize> = Vec::new();
        let mut i: usize = 0;
        while i < GC_ALL_PAGES
            invariant
                i <= GC_ALL_PAGES,
                gc_pages@.len() == i,
                gc_free_pages@.len() == i,
                forall|k: int| 0 <= k < i ==> (#[trigger] gc_pages@[k])@ == Seq::<usize>::empty(),
                forall|k: int| 0 <= k < i ==> (#[trigger] gc_free_pages@[k]) == 0,
            decreases GC_ALL_PAGES - i,
        {
            gc_pages.push(Vec::new());
            gc_free_pages.push(0);
            i = i + 1;
        }
        let r = GarbageCollector {
            map: PageMap::new(),
            headers: Vec::new(),
            free_pheaders: Vec::new(),
            gc_pages,
            gc_free_pages,
            store: FreeListStore::new(),
            mark_stack: Vec::new(),
            mark_size: 0,
            extra_pages: Vec::new(),
            base_addr: 0x4000_0000,
            recursions: 0,
            stats: GcStats {
                total_requested: 0,
                total_allocated: 0,
                last_mark: 0,
                last_mark_allocs: 0,
                pages_total_memory: 0,
                allocation_count: 0,
                pages_count: 0,
                pages_allocated: 0,
                pages_blocks: 0,
                mark_bytes: 0,
                mark_time: 0,
                mark_count: 0,
                alloc_time: 0,
            },
        };
        assert(r@.lists =~~= Seq::new(GC_ALL_PAGES as nat, |i: int| Seq::<usize>::empty()));
        assert(r@.free =~= Seq::new(GC_ALL_PAGES as nat, |i: int| 0int));
        assert(r@.pages =~= Seq::<PageView>::empty());
        proof {
            reveal(in_order);
            assert forall|p: u64| (#[trigger] super::page_map::page_in(r@.table, p)) is None by {
                super::page_map::lemma_places(p);
            }
            lemma_order_ready(&r);
        }
        r
    }

    /// Whether only the pages differ.
    pub open spec fn same_rest(&self, other: &Self) -> bool {
        &&& self.mark_stack == other.mark_stack
        &&& self.mark_size == other.mark_size
        &&& self.extra_pages == other.extra_pages
        &&& self.base_addr == other.base_addr
        &&& self.recursions == other.recursions
    }

    /// Adds a page of `size` bytes at `base`. The result is the number of its header.
    pub fn alloc_page(&mut self, base: u64, size: usize, kind: i32, block_count: usize) -> (r:
        usize)
        requires
            old(self).wf(),
            base + size <= u64::MAX,
            size <= i32::MAX,
            block_count <= 0xffff,
            old(self).headers@.len() < usize::MAX,
        ensures
            final(self).wf(),
            final(self).same_rest(old(self)),
            r == next_header(old(self)@),
            r < final(self).headers@.len(),
            final(self)@ == page_added(old(self)@, base, size as int, kind, block_count as int),
    {
        let ghost before = *self;
        let header = GcPHeader {
            base,
            bmp: None,
            page_size: size,
            page_kind: kind,
            alloc: GcAllocatorPageData {
                block_size: 0,
                max_blocks: 0,
                first_block: 0,
                need_flush: false,
                free: GcFreeList::new(),
                sizes: None,
            },
        };
        proof {
            vstd::arithmetic::power2::lemma2_to64();
        }
        assert(header@ =~= blank_page(base, size as int, kind));
        let id: usize = match self.free_pheaders.pop() {
            Some(id) => {
                assert(before.free_pheaders@[before.free_pheaders@.len() - 1] == id);
                self.headers.set(id, header);
                id
            },
            None => {
                self.headers.push(header);
                self.headers.len() - 1
            },
        };
        self.stats.pages_count = self.stats.pages_count.wrapping_add(1);
        self.stats.pages_blocks = self.stats.pages_blocks.wrapping_add(block_count);
        self.stats.pages_allocated = self.stats.pages_allocated.wrapping_add(1);
        self.stats.pages_total_memory = self.stats.pages_total_memory.wrapping_add(size as i64);
        self.stats.mark_bytes = self.stats.mark_bytes.wrapping_add((block_count + 7) / 8);
        self.map.set_pages(base, size / 65536, Some(id));
        proof {
            let next = page_added(before@, base, size as int, kind, block_count as int);
            assert(self@.pages =~= next.pages);
            assert(self@.lists =~= next.lists);
            assert(self@.spare =~= next.spare);
            assert(self@.free =~= next.free);
        }
        id
    }

    /// Removes a page with `block_count` blocks.
    pub fn free_page(&mut self, id: usize, block_count: usize)
        requires
            old(self).wf(),
            id < old(self).headers@.len(),
            block_count <= 0xffff,
        ensures
            final(self).wf(),
            final(self).same_rest(old(self)),
            final(self)@ == page_removed(old(self)@, id as int, block_count as int),
    {
        let ghost before = *self;
        let base: u64 = self.headers[id].base;
        let size: usize = self.headers[id].page_size;
        self.map.set_pages(base, size / 65536, None);
        self.stats.pages_count = self.stats.pages_count.wrapping_sub(1);
        self.stats.pages_blocks = self.stats.pages_blocks.wrapping_sub(block_count);
        self.stats.pages_total_memory = self.stats.pages_total_memory.wrapping_sub(size as i64);
        self.stats.mark_bytes = self.stats.mark_bytes.wrapping_sub((block_count + 7) / 8);
        self.free_pheaders.push(id);
        proof {
            assert(self@ =~= page_removed(before@, id as int, block_count as int));
        }
    }

    /// The size of a new page for partition and kind `pid`.
    pub fn new_page_size(&self, pid: usize, block: usize, size: usize) -> (r: usize)
        requires
            self.wf(),
            pid < GC_ALL_PAGES,
            block > 0,
            size <= i32::MAX,
        ensures
            r == grown_size(self@.lists[pid as int].len() as int, block as int, size as int),
    {
        let mut size: usize = size;
        let ghost goal = grown_size(
            self@.lists[pid as int].len() as int,
            block as int,
            size as int,
        );
        if block < 256 {
            let mut num_pages: usize = self.gc_pages[pid].len();
            while num_pages > 8 && size <= i32::MAX as usize && (size * 2) / block <= GC_PAGE_SIZE
                invariant
                    0 < block < 256,
                    size <= i32::MAX || 2 * size / block as int > 65536,
                    size <= 2 * i32::MAX,
                    goal == grown_size(num_pages as int, block as int, size as int),
                decreases num_pages,
            {
                size = size * 2;
                num_pages = num_pages / 3;
                proof {
                    if size > i32::MAX {
                        let s = size as int;
                        let b = block as int;
                        assert(2 * s / b > 65536) by (nonlinear_arith)
                            requires
                                s > 0x7fff_ffff,
                                0 < b < 256,
                        ;
                    }
                }
            }
        }
        size
    }

    /// Makes a page with blocks for partition and kind `pid`. The memory at `base` has
    /// been mapped.
    pub fn new_page(
        &mut self,
        pid: usize,
        block: usize,
        size: usize,
        kind: i32,
        varsize: bool,
        base: u64,
    ) -> (r: usize)
        requires
            old(self).wf(),
            pid < GC_ALL_PAGES,
            page_possible(block as int, size as int, varsize, base),
            old(self).headers@.len() < usize::MAX,
        ensures
            final(self).wf(),
            final(self).same_rest(old(self)),
            r == next_header(old(self)@),
            r < final(self).headers@.len(),
            final(self).gc_pages@[pid as int]@.len() == old(self).gc_pages@[pid as int]@.len() + 1,
            final(self)@ == new_paged(
                old(self)@,
                pid as int,
                block as int,
                size as int,
                kind,
                varsize,
                base,
            ),
            in_order(old(self)@) && blocks_markable(block as int, size as int, varsize)
                && range_free(old(self)@, base, size as int) ==> in_order(final(self)@)
                && pages_ready(final(self)),
    {
        let ghost before = *self;
        proof {
            if in_order(self@) && blocks_markable(block as int, size as int, varsize)
                && range_free(self@, base, size as int) {
                lemma_new_page_order(
                    self@,
                    pid as int,
                    block as int,
                    size as int,
                    kind,
                    varsize,
                    base,
                );
            }
        }
        let max_blocks: usize = size / block;
        let id: usize = self.alloc_page(base, size, kind, max_blocks);
        let ghost mid = *self;
        let page: GcPHeader = GcPHeader::fresh(base, block, size, kind, varsize, &mut self.store);
        self.headers.set(id, page);
        self.gc_pages[pid].push(id);
        proof {
            let next = new_paged(
                before@,
                pid as int,
                block as int,
                size as int,
                kind,
                varsize,
                base,
            );
            assert(self@.pages =~= next.pages);
            assert(self@.lists =~~= next.lists) by {
                assert(self@.lists[pid as int] =~= next.lists[pid as int]);
                assert forall|i: int| 0 <= i < GC_ALL_PAGES && i != pid implies self@.lists[i]
                    == next.lists[i] by {
                    assert(self.gc_pages@[i] == mid.gc_pages@[i]);
                    assert(mid@.lists[i] == mid.gc_pages@[i]@);
                }
            }
            assert(self@.free =~= next.free);
            assert forall|p: int, k: int|
                0 <= p < GC_ALL_PAGES && 0 <= k < self.gc_pages@[p]@.len() implies (
            #[trigger] self.gc_pages@[p]@[k]) < self.headers@.len() by {
                if p == pid && k == mid.gc_pages@[p]@.len() {
                } else {
                    assert(self.gc_pages@[p]@[k] == mid.gc_pages@[p]@[k]);
                }
            }
            assert(self@ == next);
            if in_order(self@) {
                lemma_order_ready(self);
            }
        }
        id
    }
}

/// A page, made anew if it has been marked since, and what becomes of the store.
pub open spec fn settled(v: PageView, store: StoreView) -> (PageView, StoreView) {
    if v.need_flush {
        flush_view(v, store)
    } else {
        (v, store)
    }
}

/// The search for a page with a free block among the first `k` pages of a list, the
/// last one first: the pages and the store after it, and how many pages are left
/// including the one that was found.
pub open spec fn find_fixed(
    pages: Seq<PageView>,
    store: StoreView,
    list: Seq<usize>,
    k: int,
) -> (Seq<PageView>, StoreView, int)
    decreases k,
{
    if k <= 0 {
        (pages, store, 0)
    } else {
        let id = list[k - 1] as int;
        let (p, s) = settled(pages[id], store);
        if p.current < p.runs.len() {
            (pages.update(id, p), s, k)
        } else {
            find_fixed(pages.update(id, p), s, list, k - 1)
        }
    }
}

/// The same for a run of at least `n` blocks.
pub open spec fn find_var(
    pages: Seq<PageView>,
    store: StoreView,
    list: Seq<usize>,
    n: int,
    k: int,
) -> (Seq<PageView>, StoreView, int)
    decreases k,
{
    if k <= 0 {
        (pages, store, 0)
    } else {
        let id = list[k - 1] as int;
        let (p, s) = settled(pages[id], store);
        if run_with(p.runs, n, p.current) < p.runs.len() {
            (pages.update(id, p), s, k)
        } else {
            find_var(pages.update(id, p), s, list, n, k - 1)
        }
    }
}

/// Whether a page has a run of at least `n` blocks left.
pub open spec fn has_room(p: PageView, n: int) -> bool {
    exists|r: int| p.current <= r < p.runs.len() && (#[trigger] p.runs[r]).count >= n
}

/// The run that is found is the first one with enough blocks.
pub proof fn lemma_run_with(runs: Seq<GcFl>, n: int, k: int)
    requires
        0 <= k <= runs.len(),
    ensures
        ({
            let r = run_with(runs, n, k);
            &&& k <= r <= runs.len()
            &&& r < runs.len() ==> runs[r].count >= n
            &&& forall|i: int| k <= i < r ==> (#[trigger] runs[i]).count < n
        }),
    decreases runs.len() - k,
{
    if k < runs.len() && runs[k].count < n {
        lemma_run_with(runs, n, k + 1);
    }
}

/// The page that a search for a run of `n` blocks ends at has one, and the pages that it has
/// passed over have none. It finds no page only if none of them has such a run.
pub proof fn lemma_find_var(
    pages: Seq<PageView>,
    store: StoreView,
    list: Seq<usize>,
    n: int,
    k: int,
)
    requires
        0 <= k <= list.len(),
        list.no_duplicates(),
        forall|i: int| 0 <= i < list.len() ==> (#[trigger] list[i]) < pages.len(),
        forall|i: int, s: StoreView|
            0 <= i < k ==> {
                let p = (#[trigger] settled(pages[list[i] as int], s)).0;
                0 <= p.current <= p.runs.len()
            },
    ensures
        ({
            let (after, s, j) = find_var(pages, store, list, n, k);
            &&& 0 <= j <= k
            &&& after.len() == pages.len()
            &&& j > 0 ==> has_room(after[list[j - 1] as int], n)
            &&& forall|i: int| j <= i < k ==> !has_room(after[(#[trigger] list[i]) as int], n)
            &&& forall|id: int|
                0 <= id < pages.len() && (forall|i: int|
                    j - 1 <= i < k && 0 <= i ==> (#[trigger] list[i]) != id)
                    ==> #[trigger] after[id] == pages[id]
        }),
    decreases k,
{
    if k > 0 {
        let id = list[k - 1] as int;
        let (p, s) = settled(pages[id], store);
        lemma_run_with(p.runs, n, p.current);
        let mid = pages.update(id, p);
        let r = run_with(p.runs, n, p.current);
        if r < p.runs.len() {
            assert(mid[id].runs[r].count >= n);
        } else {
            assert(!has_room(p, n));
            assert forall|i: int, t: StoreView| 0 <= i < k - 1 implies {
                let q = (#[trigger] settled(mid[list[i] as int], t)).0;
                0 <= q.current <= q.runs.len()
            } by {
                assert(list[i] != list[k - 1]);
                assert(mid[list[i] as int] == pages[list[i] as int]);
                let q = settled(pages[list[i] as int], t).0;
            }
            lemma_find_var(mid, s, list, n, k - 1);
            let (after, t, j) = find_var(mid, s, list, n, k - 1);
            assert(after[id] == mid[id]) by {
                assert forall|i: int| j - 1 <= i < k - 1 && 0 <= i implies (#[trigger] list[i])
                    != id by {
                    assert(list[i] != list[k - 1]);
                }
            }
        }
    }
}

/// Whether a page has a run left.
pub open spec fn has_left(p: PageView) -> bool {
    p.current < p.runs.len()
}

/// The page that a search for a free block ends at has a run left, and the pages that it has
/// passed over have none. It finds no page only if none of them has a run left.
pub proof fn lemma_find_fixed(
    pages: Seq<PageView>,
    store: StoreView,
    list: Seq<usize>,
    k: int,
)
    requires
        0 <= k <= list.len(),
        list.no_duplicates(),
        forall|i: int| 0 <= i < list.len() ==> (#[trigger] list[i]) < pages.len(),
        forall|i: int, s: StoreView|
            0 <= i < k ==> {
                let p = (#[trigger] settled(pages[list[i] as int], s)).0;
                0 <= p.current <= p.runs.len()
            },
    ensures
        ({
            let (after, s, j) = find_fixed(pages, store, list, k);
            &&& 0 <= j <= k
            &&& after.len() == pages.len()
            &&& j > 0 ==> has_left(after[list[j - 1] as int])
            &&& forall|i: int| j <= i < k ==> !has_left(after[(#[trigger] list[i]) as int])
            &&& forall|id: int|
                0 <= id < pages.len() && (forall|i: int|
                    j - 1 <= i < k && 0 <= i ==> (#[trigger] list[i]) != id)
                    ==> #[trigger] after[id] == pages[id]
        }),
    decreases k,
{
    if k > 0 {
        let id = list[k - 1] as int;
        let (p, s) = settled(pages[id], store);
        let mid = pages.update(id, p);
        if p.current >= p.runs.len() {
            assert forall|i: int, t: StoreView| 0 <= i < k - 1 implies {
                let q = (#[trigger] settled(mid[list[i] as int], t)).0;
                0 <= q.current <= q.runs.len()
            } by {
                assert(list[i] != list[k - 1]);
                assert(mid[list[i] as int] == pages[list[i] as int]);
                let q = settled(pages[list[i] as int], t).0;
            }
            lemma_find_fixed(mid, s, list, k - 1);
            let (after, t, j) = find_fixed(mid, s, list, k - 1);
            assert(after[id] == mid[id]) by {
                assert forall|i: int| j - 1 <= i < k - 1 && 0 <= i implies (#[trigger] list[i])
                    != id by {
                    assert(list[i] != list[k - 1]);
                }
            }
        }
    }
}

/// The number of a partition and kind.
pub open spec fn pid_of(part: int, kind: i32) -> int {
    4 * part + kind
}

/// A page after `n` blocks of run `k` have been taken.
pub open spec fn blocks_taken(v: PageView, k: int, n: int) -> PageView {
    PageView {
        runs: v.runs.update(
            k,
            GcFl { pos: v.runs[k].pos, count: (v.runs[k].count - n) as u16 },
        ),
        current: if v.runs[k].count == n {
            v.current + 1
        } else {
            v.current
        },
        ..v
    }
}

/// The address of block `b` of a page.
pub open spec fn block_address(v: PageView, b: int) -> u64 {
    (v.base + b * v.block_size) as u64
}

impl GarbageCollector {
    /// Whether the blocks of every page of a list lie within it.
    pub open spec fn blocks_fit(&self, pid: int) -> bool {
        forall|k: int|
            0 <= k < self.gc_pages@[pid]@.len() ==> {
                let p = self.headers@[(#[trigger] self.gc_pages@[pid]@[k]) as int];
                p.alloc.max_blocks * p.alloc.block_size <= p.page_size
            }
    }

    /// Makes the runs of a page anew if it has been marked since.
    fn settle(&mut self, id: usize)
        requires
            old(self).wf(),
            id < old(self).headers@.len(),
        ensures
            final(self).wf(),
            final(self).same_rest(old(self)),
            final(self).gc_pages == old(self).gc_pages,
            final(self).gc_free_pages == old(self).gc_free_pages,
            final(self).headers@.len() == old(self).headers@.len(),
            ({
                let (p, s) = settled(old(self)@.pages[id as int], old(self)@.store);
                final(self)@ == (GcView {
                    pages: old(self)@.pages.update(id as int, p),
                    store: s,
                    ..old(self)@
                })
            }),
            runs_positive(old(self).headers@[id as int].alloc.free.left()) ==> runs_positive(
                final(self).headers@[id as int].alloc.free.left(),
            ),
            forall|i: int|
                0 <= i < old(self).headers@.len() && i != id ==> #[trigger] final(self).headers@[i]
                    == old(self).headers@[i],
    {
        let ghost before = *self;
        if self.headers[id].alloc.need_flush {
            self.headers[id].flush_free_list(&mut self.store);
            assert(self.headers@[id as int].alloc.free.left()
                =~= self.headers@[id as int].alloc.free.data@);
        }
        proof {
            let (p, s) = settled(before@.pages[id as int], before@.store);
            assert(self@.pages =~= before@.pages.update(id as int, p));
            assert(self@.lists =~= before@.lists);
            assert(self@.free =~= before@.free);
        }
    }

    /// Looks for a free block in the pages of a fixed partition and takes it. Without
    /// one, a new page is needed.
    pub fn alloc_fixed(&mut self, part: usize, kind: i32) -> (r: Option<u64>)
        requires
            old(self).wf(),
            part < GC_FIXED_PARTS,
            0 <= kind < 4,
            old(self).blocks_fit(pid_of(part as int, kind)),
            forall|k: int|
                0 <= k < old(self).gc_pages@[pid_of(part as int, kind)]@.len() ==> runs_positive(
                    old(self).headers@[(#[trigger] old(self).gc_pages@[pid_of(
                        part as int,
                        kind,
                    )]@[k]) as int].alloc.free.left(),
                ),
        ensures
            final(self).wf(),
            final(self).same_rest(old(self)),
            ({
                let pid = pid_of(part as int, kind);
                let g = old(self)@;
                let (pages, store, k) = find_fixed(g.pages, g.store, g.lists[pid], g.free[pid]);
                let id = g.lists[pid][k - 1] as int;
                &&& k == 0 ==> r is None && final(self)@ == (GcView { pages, store, ..g })
                &&& k > 0 ==> {
                    &&& r == Some(block_address(pages[id], pages[id].runs[pages[id].current].pos as int))
                    &&& final(self)@ == (GcView {
                        pages: pages.update(id, block_taken(pages[id])),
                        store,
                        free: g.free.update(pid, k),
                        ..g
                    })
                }
            }),
            same_pages(old(self)@, final(self)@),
            in_order(old(self)@) ==> in_order(final(self)@),
    {
        let pid: usize = 4 * part + kind as usize;
        let ghost before = *self;
        let ghost g = self@;
        let ghost list = self.gc_pages@[pid as int]@;
        let ghost goal = find_fixed(g.pages, g.store, g.lists[pid as int], g.free[pid as int]);
        let mut k: usize = self.gc_free_pages[pid];
        assert(before.gc_free_pages@[pid as int] <= list.len());
        assert((GcView { pages: g.pages, store: g.store, ..g }) =~= g);
        while k > 0
            invariant
                before == *old(self),
                g == before@,
                part < GC_FIXED_PARTS,
                0 <= kind < 4,
                pid == pid_of(part as int, kind),
                pid < GC_ALL_PAGES,
                self.wf(),
                self.same_rest(&before),
                self.gc_pages == before.gc_pages,
                self.gc_free_pages == before.gc_free_pages,
                self.headers@.len() == before.headers@.len(),
                list == before.gc_pages@[pid as int]@,
                list == g.lists[pid as int],
                k <= list.len(),
                self@ == (GcView { pages: self@.pages, store: self@.store, ..g }),
                same_pages(g, self@),
                in_order(g) ==> in_order(self@),
                goal == find_fixed(g.pages, g.store, g.lists[pid as int], g.free[pid as int]),
                goal == find_fixed(self@.pages, self@.store, list, k as int),
                self.blocks_fit(pid as int),
                forall|k: int|
                    0 <= k < list.len() ==> runs_positive(
                        self.headers@[(#[trigger] list[k]) as int].alloc.free.left(),
                    ),
            decreases k,
        {
            let id: usize = self.gc_pages[pid][k - 1];
            assert(list[k - 1] == id);
            assert(self.gc_pages@[pid as int]@[k - 1] < self.headers@.len());
            let ghost prev = *self;
            self.settle(id);
            proof {
                lemma_settled_same(prev@.pages[id as int], prev@.store);
                lemma_changed_page(g, prev@, self@, id as int);
                assert forall|j: int| 0 <= j < list.len() implies runs_positive(
                    self.headers@[(#[trigger] list[j]) as int].alloc.free.left(),
                ) by {
                    assert(self.gc_pages@[pid as int]@[j] < self.headers@.len());
                    assert(runs_positive(prev.headers@[list[j] as int].alloc.free.left()));
                }
                assert forall|j: int| 0 <= j < self.gc_pages@[pid as int]@.len() implies {
                    let p = self.headers@[(#[trigger] self.gc_pages@[pid as int]@[j]) as int];
                    p.alloc.max_blocks * p.alloc.block_size <= p.page_size
                } by {
                    let n = self.gc_pages@[pid as int]@[j] as int;
                    let q = prev.headers@[prev.gc_pages@[pid as int]@[j] as int];
                    assert(q.alloc.max_blocks * q.alloc.block_size <= q.page_size);
                    assert(self@.pages[n].max_blocks == prev@.pages[n].max_blocks);
                    assert(self@.pages[n].block_size == prev@.pages[n].block_size);
                    assert(self@.pages[n].page_size == prev@.pages[n].page_size);
                }
                assert(self@.pages[id as int] == self.headers@[id as int]@);
            }
            if self.headers[id].alloc.free.current < self.headers[id].alloc.free.data.len() {
                let ghost mid = *self;
                proof {
                    let p = self.headers@[list[k - 1] as int];
                    assert(p.alloc.free.left()[0] == p.alloc.free.data@[p.alloc.free.current as int]);
                    let q = self.headers@[self.gc_pages@[pid as int]@[k - 1] as int];
                    assert(q.alloc.max_blocks * q.alloc.block_size <= q.page_size);
                }
                let bid: usize = self.headers[id].take_block();
                let base: u64 = self.headers[id].base;
                let size: usize = self.headers[id].alloc.block_size;
                self.gc_free_pages.set(pid, k);
                proof {
                    let p = mid.headers@[id as int];
                    let b = bid as int;
                    let m = p.alloc.max_blocks as int;
                    assert(b * size <= m * size) by (nonlinear_arith)
                        requires
                            0 <= b <= m,
                            size >= 0,
                    ;
                    assert(self@.pages =~= mid@.pages.update(
                        id as int,
                        block_taken(mid@.pages[id as int]),
                    ));
                    assert(self@.free =~= g.free.update(pid as int, k as int));
                    assert(self@.lists =~= g.lists);
                    lemma_changed_page(g, mid@, self@, id as int);
                }
                return Some(base + (bid * size) as u64);
            }
            k = k - 1;
        }
        None
    }

    /// Takes the first block of a page that has just been made for a fixed partition.
    pub fn alloc_fixed_in_new_page(&mut self, part: usize, kind: i32, size: usize, base: u64) -> (r:
        u64)
        requires
            old(self).wf(),
            part < GC_FIXED_PARTS,
            0 <= kind < 4,
            page_possible(block_size_of(part as int), size as int, false, base),
            size >= block_size_of(part as int),
            old(self).headers@.len() < usize::MAX,
        ensures
            final(self).wf(),
            final(self).same_rest(old(self)),
            r == base,
            ({
                let pid = pid_of(part as int, kind);
                let g = new_paged(
                    old(self)@,
                    pid,
                    block_size_of(part as int),
                    size as int,
                    kind,
                    false,
                    base,
                );
                let id = next_header(old(self)@);
                let p = g.pages[id];
                final(self)@ == (GcView {
                    pages: g.pages.update(
                        id,
                        PageView {
                            runs: seq![GcFl { pos: 1, count: (p.max_blocks - 1) as u16 }],
                            ..p
                        },
                    ),
                    free: g.free.update(pid, g.lists[pid].len() as int),
                    ..g
                })
            }),
            in_order(old(self)@) && size % 65536 == 0 && range_free(
                old(self)@,
                base,
                size as int,
            ) ==> in_order(final(self)@) && pages_ready(final(self)),
    {
        proof {
            if size % 65536 == 0 {
                lemma_partition_markable(part as int, size as int);
            }
        }
        let pid: usize = 4 * part + kind as usize;
        let block: usize = partition_block(part);
        let ghost before = *self;
        let id: usize = self.new_page(pid, block, size, kind, false, base);
        let ghost mid = *self;
        proof {
            let b = block as int;
            assert(start_pos(b, size as int / b, false) == 0) by {
                vstd::arithmetic::div_mod::lemma_small_mod(0, b as nat);
            }
            vstd::arithmetic::div_mod::lemma_basic_div(0, b);
            assert(size as int / b >= 1) by (nonlinear_arith)
                requires
                    size as int >= b,
                    b > 0,
            ;
            assert(mid@.pages[id as int] == mid.headers@[id as int]@);
            assert(mid@.pages[id as int].runs[0].pos == 0);
        }
        let bid: usize = self.headers[id].take_first(1);
        let n: usize = self.gc_pages[pid].len();
        self.gc_free_pages.set(pid, n);
        proof {
            let p = mid@.pages[id as int];
            assert(self@.pages =~= mid@.pages.update(
                id as int,
                PageView {
                    runs: seq![GcFl { pos: 1, count: (p.max_blocks - 1) as u16 }],
                    ..p
                },
            )) by {
                assert(self@.pages[id as int].runs =~= seq![
                    GcFl { pos: 1, count: (p.max_blocks - 1) as u16 },
                ]);
            }
            assert(self@.lists =~= mid@.lists);
            assert(self@.free =~= mid@.free.update(pid as int, n as int));
            lemma_changed_page(mid@, mid@, self@, id as int);
            if in_order(self@) {
                lemma_order_ready(self);
            }
        }
        base
    }
}

/// Changing what is free on one page keeps the order.
proof fn lemma_changed_page(first: GcView, g: GcView, h: GcView, id: int)
    requires
        same_pages(first, g),
        0 <= id < g.pages.len(),
        h.table == g.table,
        h.lists == g.lists,
        h.spare == g.spare,
        h.pages == g.pages.update(id, h.pages[id]),
        same_page(g.pages[id], h.pages[id]),
    ensures
        same_pages(first, h),
        in_order(first) ==> in_order(h),
{
    assert forall|i: int| 0 <= i < first.pages.len() implies same_page(
        first.pages[i],
        #[trigger] h.pages[i],
    ) by {
        assert(same_page(first.pages[i], g.pages[i]));
    }
    if in_order(first) {
        lemma_order_kept(first, h);
    }
}

/// Whether an object of `n` blocks has been placed at block `b` of page `id`.
pub open spec fn placed_in(before: GcView, after: GcView, id: int, b: int, n: int) -> bool {
    &&& object_placed(before.pages[id], after.pages[id], b, n)
    &&& after == (GcView { pages: before.pages.update(id, after.pages[id]), ..before })
}

impl GarbageCollector {
    /// Looks for a run of blocks for `size` bytes in the pages of a partition for
    /// objects of several blocks and takes it. Without one, a new page is needed.
    pub fn alloc_var(&mut self, part: usize, size: usize, kind: i32) -> (r: Option<u64>)
        requires
            old(self).wf(),
            GC_FIXED_PARTS <= part < GC_LARGE_PART,
            0 <= kind < 4,
            1 <= blocks_for(part as int, size as int) <= 0xff,
            old(self).blocks_fit(pid_of(part as int, kind)),
            forall|k: int|
                0 <= k < old(self).gc_pages@[pid_of(part as int, kind)]@.len() ==> old(self).headers@[(#[trigger] old(self).gc_pages@[pid_of(
                    part as int,
                    kind,
                )]@[k]) as int].alloc.sizes is Some,
        ensures
            final(self).wf(),
            final(self).same_rest(old(self)),
            ({
                let pid = pid_of(part as int, kind);
                let n = blocks_for(part as int, size as int);
                let g = old(self)@;
                let (pages, store, k) = find_var(g.pages, g.store, g.lists[pid], n, g.free[pid]);
                let id = g.lists[pid][k - 1] as int;
                let p = pages[id];
                let run = run_with(p.runs, n, p.current);
                let b = p.runs[run].pos as int;
                &&& k == 0 ==> r is None && final(self)@ == (GcView { pages, store, ..g })
                &&& k > 0 ==> {
                    &&& r == Some(block_address(p, b))
                    &&& placed_in(
                        GcView {
                            pages: pages.update(id, blocks_taken(p, run, n)),
                            store,
                            free: g.free.update(pid, k),
                            ..g
                        },
                        final(self)@,
                        id,
                        b,
                        n,
                    )
                }
            }),
            same_pages(old(self)@, final(self)@),
            in_order(old(self)@) ==> in_order(final(self)@),
    {
        let pid: usize = 4 * part + kind as usize;
        let nblocks: usize = partition_blocks(part, size);
        let ghost n = nblocks as int;
        let ghost before = *self;
        let ghost g = self@;
        let ghost list = self.gc_pages@[pid as int]@;
        let ghost goal = find_var(g.pages, g.store, g.lists[pid as int], n, g.free[pid as int]);
        let mut k: usize = self.gc_free_pages[pid];
        assert(before.gc_free_pages@[pid as int] <= list.len());
        assert((GcView { pages: g.pages, store: g.store, ..g }) =~= g);
        while k > 0
            invariant
                before == *old(self),
                g == before@,
                GC_FIXED_PARTS <= part < GC_LARGE_PART,
                0 <= kind < 4,
                pid == pid_of(part as int, kind),
                pid < GC_ALL_PAGES,
                n == nblocks,
                n == blocks_for(part as int, size as int),
                1 <= n <= 0xff,
                self.wf(),
                self.same_rest(&before),
                self.gc_pages == before.gc_pages,
                self.gc_free_pages == before.gc_free_pages,
                self.headers@.len() == before.headers@.len(),
                list == before.gc_pages@[pid as int]@,
                list == g.lists[pid as int],
                k <= list.len(),
                self@ == (GcView { pages: self@.pages, store: self@.store, ..g }),
                same_pages(g, self@),
                in_order(g) ==> in_order(self@),
                goal == find_var(g.pages, g.store, g.lists[pid as int], n, g.free[pid as int]),
                goal == find_var(self@.pages, self@.store, list, n, k as int),
                self.blocks_fit(pid as int),
                forall|k: int|
                    0 <= k < list.len() ==> self.headers@[(
                    #[trigger] list[k]) as int].alloc.sizes is Some,
            decreases k,
        {
            let id: usize = self.gc_pages[pid][k - 1];
            assert(list[k - 1] == id);
            assert(self.gc_pages@[pid as int]@[k - 1] < self.headers@.len());
            let ghost prev = *self;
            self.settle(id);
            proof {
                lemma_settled_same(prev@.pages[id as int], prev@.store);
                lemma_changed_page(g, prev@, self@, id as int);
                assert(self@.pages[id as int] == self.headers@[id as int]@);
                assert(prev@.pages[id as int] == prev.headers@[id as int]@);
                if prev@.pages[id as int].need_flush {
                    super::page::lemma_flush_keeps_sizes(
                        prev.headers@[id as int],
                        prev@.store,
                    );
                }
                assert forall|j: int| 0 <= j < list.len() implies self.headers@[(
                #[trigger] list[j]) as int].alloc.sizes is Some by {
                    assert(self.gc_pages@[pid as int]@[j] < self.headers@.len());
                    assert(prev.headers@[list[j] as int].alloc.sizes is Some);
                }
                assert forall|j: int| 0 <= j < self.gc_pages@[pid as int]@.len() implies {
                    let p = self.headers@[(#[trigger] self.gc_pages@[pid as int]@[j]) as int];
                    p.alloc.max_blocks * p.alloc.block_size <= p.page_size
                } by {
                    let m = self.gc_pages@[pid as int]@[j] as int;
                    let q = prev.headers@[prev.gc_pages@[pid as int]@[j] as int];
                    assert(q.alloc.max_blocks * q.alloc.block_size <= q.page_size);
                    assert(self@.pages[m].max_blocks == prev@.pages[m].max_blocks);
                    assert(self@.pages[m].block_size == prev@.pages[m].block_size);
                    assert(self@.pages[m].page_size == prev@.pages[m].page_size);
                }
            }
            let ghost mid = *self;
            match self.headers[id].take_blocks(nblocks) {
                Some(bid) => {
                    let ghost taken = *self;
                    self.headers[id].place(bid, nblocks);
                    let base: u64 = self.headers[id].base;
                    let block: usize = self.headers[id].alloc.block_size;
                    self.gc_free_pages.set(pid, k);
                    proof {
                        let p = mid.headers@[id as int];
                        assert(list[k - 1] == mid.gc_pages@[pid as int]@[k - 1]);
                        let q = mid.headers@[mid.gc_pages@[pid as int]@[k - 1] as int];
                        assert(q.alloc.max_blocks * q.alloc.block_size <= q.page_size);
                        let b = bid as int;
                        let m = p.alloc.max_blocks as int;
                        assert(b * block <= m * block) by (nonlinear_arith)
                            requires
                                0 <= b <= m,
                                block >= 0,
                        ;
                        let run = run_with(mid@.pages[id as int].runs, n, mid@.pages[id as int].current);
                        let from = GcView {
                            pages: mid@.pages.update(
                                id as int,
                                blocks_taken(mid@.pages[id as int], run, n),
                            ),
                            free: g.free.update(pid as int, k as int),
                            ..mid@
                        };
                        assert(self@.pages =~= from.pages.update(
                            id as int,
                            self@.pages[id as int],
                        ));
                        assert(self@.free =~= from.free);
                        assert(self@.lists =~= from.lists);
                        assert(from.pages[id as int] == taken.headers@[id as int]@);
                        assert(placed_in(from, self@, id as int, b, n));
                        assert(self@.pages =~= mid@.pages.update(
                            id as int,
                            self@.pages[id as int],
                        ));
                        lemma_changed_page(g, mid@, self@, id as int);
                    }
                    return Some(base + (bid * block) as u64);
                },
                None => {
                    assert(self.headers@ =~= mid.headers@);
                    assert(self@ =~= mid@);
                },
            }
            k = k - 1;
        }
        None
    }

    /// The size of the page to ask for when no page has room for `size` bytes.
    pub fn var_page_size(size: usize) -> (r: usize)
        requires
            size <= 0x1000_0000,
        ensures
            r >= size + 1024,
            r >= GC_PAGE_SIZE,
            r == GC_PAGE_SIZE || r < 2 * (size + 1024),
            exists|k: nat| r == GC_PAGE_SIZE * #[trigger] vstd::arithmetic::power2::pow2(k),
    {
        let mut psize: usize = GC_PAGE_SIZE;
        let ghost mut k: nat = 0;
        proof {
            vstd::arithmetic::power2::lemma2_to64();
        }
        while psize < size + 1024
            invariant
                size <= 0x1000_0000,
                psize >= GC_PAGE_SIZE,
                psize == GC_PAGE_SIZE || psize < 2 * (size + 1024),
                psize == GC_PAGE_SIZE * vstd::arithmetic::power2::pow2(k),
            decreases 2 * (size + 1024) - psize,
        {
            psize = psize * 2;
            proof {
                k = k + 1;
                vstd::arithmetic::power2::lemma_pow2_unfold(k);
            }
        }
        psize
    }

    /// Takes the first blocks of a page that has just been made for objects of several
    /// blocks.
    pub fn alloc_var_in_new_page(
        &mut self,
        part: usize,
        size: usize,
        kind: i32,
        psize: usize,
        base: u64,
    ) -> (r: u64)
        requires
            old(self).wf(),
            GC_FIXED_PARTS <= part < GC_LARGE_PART,
            0 <= kind < 4,
            1 <= blocks_for(part as int, size as int) <= 0xff,
            page_possible(block_size_of(part as int), psize as int, true, base),
            ({
                let block = block_size_of(part as int);
                let max_blocks = psize as int / block;
                start_pos(block, max_blocks, true) / block + blocks_for(part as int, size as int)
                    <= max_blocks
            }),
            old(self).headers@.len() < usize::MAX,
        ensures
            final(self).wf(),
            final(self).same_rest(old(self)),
            ({
                let pid = pid_of(part as int, kind);
                let n = blocks_for(part as int, size as int);
                let g = new_paged(
                    old(self)@,
                    pid,
                    block_size_of(part as int),
                    psize as int,
                    kind,
                    true,
                    base,
                );
                let id = next_header(old(self)@);
                let p = g.pages[id];
                &&& r == block_address(p, p.first_block)
                &&& placed_in(
                    GcView {
                        pages: g.pages.update(
                            id,
                            PageView {
                                runs: p.runs.update(
                                    0,
                                    GcFl {
                                        pos: (p.runs[0].pos + n) as u16,
                                        count: (p.runs[0].count - n) as u16,
                                    },
                                ),
                                ..p
                            },
                        ),
                        free: g.free.update(pid, g.lists[pid].len() as int),
                        ..g
                    },
                    final(self)@,
                    id,
                    p.first_block,
                    n,
                )
            }),
            in_order(old(self)@) && psize % 65536 == 0 && range_free(
                old(self)@,
                base,
                psize as int,
            ) ==> in_order(final(self)@) && pages_ready(final(self)),
    {
        proof {
            if psize % 65536 == 0 && psize > 0 {
                lemma_partition_markable(part as int, psize as int);
            }
        }
        let pid: usize = 4 * part + kind as usize;
        let nblocks: usize = partition_blocks(part, size);
        let block: usize = partition_block(part);
        let ghost before = *self;
        let id: usize = self.new_page(pid, block, psize, kind, true, base);
        let ghost mid = *self;
        proof {
            assert(mid@.pages[id as int] == mid.headers@[id as int]@);
            let b = block as int;
            let max_blocks = psize as int / b;
            let start = start_pos(b, max_blocks, true);
            assert(start >= 0) by {
                let s = max_blocks + (64 - max_blocks % 64) % 64;
                vstd::arithmetic::div_mod::lemma_mod_bound(s, b);
            }
            vstd::arithmetic::div_mod::lemma_div_pos_is_pos(start, b);
        }
        let bid: usize = self.headers[id].take_first(nblocks);
        let ghost taken = *self;
        self.headers[id].place(bid, nblocks);
        let n: usize = self.gc_pages[pid].len();
        self.gc_free_pages.set(pid, n);
        proof {
            let p = mid@.pages[id as int];
            let from = GcView {
                pages: mid@.pages.update(
                    id as int,
                    PageView {
                        runs: p.runs.update(
                            0,
                            GcFl {
                                pos: (p.runs[0].pos + nblocks) as u16,
                                count: (p.runs[0].count - nblocks) as u16,
                            },
                        ),
                        ..p
                    },
                ),
                free: mid@.free.update(pid as int, n as int),
                ..mid@
            };
            assert(self@.pages =~= from.pages.update(id as int, self@.pages[id as int]));
            assert(self@.free =~= from.free);
            assert(self@.lists =~= from.lists);
            assert(from.pages[id as int] == taken.headers@[id as int]@);
            assert(placed_in(from, self@, id as int, p.first_block, nblocks as int));
            assert(self@.pages =~= mid@.pages.update(id as int, self@.pages[id as int]));
            lemma_changed_page(mid@, mid@, self@, id as int);
            if in_order(self@) {
                lemma_order_ready(self);
            }
            let b = bid as int;
            let m = p.max_blocks;
            assert(b * block <= m * block && m * block <= psize) by (nonlinear_arith)
                requires
                    0 <= b <= m,
                    block > 0,
                    m == psize as int / block as int,
            ;
        }
        base + (bid * block) as u64
    }
}

/// What an allocation comes to: which partition serves it, and the bytes that it takes.
#[derive(Clone, Copy, PartialEq, Eq, Debug, Structural)]
pub enum AllocPlan {
    /// A page of its own.
    Large { size: usize },
    /// A block of a fixed partition.
    Fixed { part: usize, size: usize },
    /// Several blocks of a partition.
    Var { part: usize, size: usize },
}

/// `size` rounded up to a multiple of `to`.
pub open spec fn round_to(size: int, to: int) -> int {
    size + (to - size % to) % to
}

/// What an allocation of `size` bytes comes to.
pub open spec fn alloc_plan(size: int, kind: i32) -> AllocPlan {
    let sz = round_to(size, 8);
    if sz >= 0x10_0000 {
        AllocPlan::Large { size: round_to(sz, 65536) as usize }
    } else if sz <= 40 && kind != MEM_KIND_FINALIZE {
        AllocPlan::Fixed { part: (sz / 8 - 1) as usize, size: sz as usize }
    } else if sz < 8 * 255 {
        AllocPlan::Var { part: 5, size: sz as usize }
    } else if round_to(sz, 64) < 64 * 255 {
        AllocPlan::Var { part: 6, size: round_to(sz, 64) as usize }
    } else {
        AllocPlan::Var { part: 7, size: round_to(sz, 8192) as usize }
    }
}

/// Whether `planned` is the least multiple of `unit` that holds `size` bytes.
pub open spec fn least_multiple(planned: int, size: int, unit: int) -> bool {
    &&& planned % unit == 0
    &&& planned >= size
    &&& planned - size < unit
}

/// Whether a plan serves a request: there is room for all of it and for less than a block
/// more, objects of eight bytes less than a megabyte and up have pages of their own, the
/// smallest ones have a block of their own size unless they are finalized, and the others
/// take less than 255 blocks of the finest partition in which they do.
pub open spec fn serves(plan: AllocPlan, size: int, kind: i32) -> bool {
    match plan {
        AllocPlan::Large { size: planned } => {
            &&& size > 0x10_0000 - 8
            &&& least_multiple(planned as int, size, 65536)
        },
        AllocPlan::Fixed { part, size: planned } => {
            &&& size <= 40
            &&& kind != MEM_KIND_FINALIZE
            &&& planned == 8 * (part + 1)
            &&& least_multiple(planned as int, size, 8)
        },
        AllocPlan::Var { part, size: planned } => {
            let unit: int = if part == 5 {
                8
            } else if part == 6 {
                64
            } else {
                8192
            };
            &&& size <= 0x10_0000 - 8
            &&& size > 40 || kind == MEM_KIND_FINALIZE
            &&& 5 <= part <= 7
            &&& least_multiple(planned as int, size, unit)
            &&& planned < 255 * unit
            &&& part >= 6 ==> size > 254 * 8
            &&& part == 7 ==> size > 254 * 64
        },
    }
}

/// There is one least multiple.
proof fn lemma_least_multiple(a: int, b: int, size: int, unit: int)
    requires
        unit > 0,
        least_multiple(a, size, unit),
        least_multiple(b, size, unit),
    ensures
        a == b,
{
    vstd::arithmetic::div_mod::lemma_fundamental_div_mod(a, unit);
    vstd::arithmetic::div_mod::lemma_fundamental_div_mod(b, unit);
    let p = a / unit;
    let q = b / unit;
    assert(p == q) by (nonlinear_arith)
        requires
            a == unit * p,
            b == unit * q,
            -unit < a - b < unit,
            unit > 0,
    ;
}

/// Every request that can be planned is served by its plan, and by no other.
pub proof fn lemma_plan_serves(size: int, kind: i32)
    requires
        0 < size <= i32::MAX - 65536,
    ensures
        serves(alloc_plan(size, kind), size, kind),
        forall|plan: AllocPlan| #[trigger]
            serves(plan, size, kind) ==> plan == alloc_plan(size, kind),
{
    let sz = round_to(size, 8);
    assert(least_multiple(sz, size, 8));
    assert(least_multiple(round_to(sz, 64), size, 64));
    assert(least_multiple(round_to(sz, 8192), size, 8192));
    assert(least_multiple(round_to(sz, 65536), size, 65536));
    assert forall|plan: AllocPlan| #[trigger] serves(plan, size, kind) implies plan == alloc_plan(
        size,
        kind,
    ) by {
        match plan {
            AllocPlan::Large { size: planned } => {
                lemma_least_multiple(planned as int, round_to(sz, 65536), size, 65536);
            },
            AllocPlan::Fixed { part, size: planned } => {
                lemma_least_multiple(planned as int, sz, size, 8);
            },
            AllocPlan::Var { part, size: planned } => {
                if part == 5 {
                    lemma_least_multiple(planned as int, sz, size, 8);
                } else if part == 6 {
                    lemma_least_multiple(planned as int, round_to(sz, 64), size, 64);
                } else {
                    lemma_least_multiple(planned as int, round_to(sz, 8192), size, 8192);
                }
            },
        }
    }
}

impl GarbageCollector {
    /// What an allocation of `size` bytes comes to.
    pub fn raw_alloc(size: usize, page_kind: i32) -> (r: AllocPlan)
        requires
            0 < size <= i32::MAX - 65536,
        ensures
            r == alloc_plan(size as int, page_kind),
            serves(r, size as int, page_kind),
            r matches AllocPlan::Var { part, size } ==> GC_FIXED_PARTS <= part < GC_LARGE_PART
                && 1 <= blocks_for(part as int, size as int) <= 0xff,
            r matches AllocPlan::Fixed { part, size } ==> part < GC_FIXED_PARTS && size
                == block_size_of(part as int),
    {
        proof {
            lemma_plan_serves(size as int, page_kind);
        }
        let sz: usize = size + (8 - size % 8) % 8;
        if sz >= GC_LARGE_BLOCK {
            return AllocPlan::Large { size: sz + (65536 - sz % 65536) % 65536 };
        }
        if sz <= 40 && page_kind != MEM_KIND_FINALIZE {
            let part: usize = sz / 8 - 1;
            return AllocPlan::Fixed { part, size: partition_block(part) };
        }
        let mut p: usize = GC_FIXED_PARTS;
        while p < GC_PARTITIONS - 1
            invariant
                GC_FIXED_PARTS <= p <= GC_PARTITIONS - 1,
                0 < size <= i32::MAX - 65536,
                serves(alloc_plan(size as int, page_kind), size as int, page_kind),
                sz == round_to(size as int, 8),
                8 <= sz < 0x10_0000,
                sz > 40 || page_kind == MEM_KIND_FINALIZE,
                p > 5 ==> sz >= 8 * 255,
                p > 6 ==> round_to(sz as int, 64) >= 64 * 255,
                p <= 7,
            decreases GC_PARTITIONS - p,
        {
            let block: usize = partition_block(p);
            let query: usize = sz + (block - sz % block) % block;
            if query < block * 255 {
                return AllocPlan::Var { part: p, size: query };
            }
            p = p + 1;
        }
        AllocPlan::Var { part: 7, size: sz + (8192 - sz % 8192) % 8192 }
    }
}

impl GarbageCollector {
    /// What has been allocated since the last marking: bytes and objects. A fifth of
    /// the memory, or of the blocks, is enough to mark again.
    pub fn since_mark(&self) -> (r: (i64, i64))
        ensures
            r.0 == self.stats.total_allocated.wrapping_sub(self.stats.last_mark),
            r.1 == self.stats.allocation_count.wrapping_sub(self.stats.last_mark_allocs),
    {
        (
            self.stats.total_allocated.wrapping_sub(self.stats.last_mark),
            self.stats.allocation_count.wrapping_sub(self.stats.last_mark_allocs),
        )
    }

    /// Notes that a collection starts.
    pub fn start_major(&mut self)
        ensures
            *final(self) == (GarbageCollector {
                stats: GcStats {
                    last_mark: old(self).stats.total_allocated,
                    last_mark_allocs: old(self).stats.allocation_count,
                    ..old(self).stats
                },
                ..*old(self)
            }),
    {
        self.stats.last_mark = self.stats.total_allocated;
        self.stats.last_mark_allocs = self.stats.allocation_count;
    }

    /// Counts the bytes of an allocation.
    pub fn alloc_gen(&mut self, allocated: i64)
        ensures
            *final(self) == (GarbageCollector {
                stats: GcStats {
                    total_allocated: old(self).stats.total_allocated.wrapping_add(allocated),
                    ..old(self).stats
                },
                ..*old(self)
            }),
    {
        self.stats.total_allocated = self.stats.total_allocated.wrapping_add(allocated);
    }
}

} // verus!
