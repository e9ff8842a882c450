//! Marking: every word of the roots, the stacks and the marked objects that points into
//! an object marks that object. Pages on which nothing is marked are given back.

use vstd::prelude::*;

use super::collector::{page_removed, GarbageCollector, GcView};
use super::free_runs::given;
use super::order::{
    in_order, lemma_all_dead_removed_order, lemma_order_kept, lemma_order_ready, same_page,
};
use super::page::{interior_block, is_zero, object_bytes, PageView};
use super::page_map::page_in;
use super::{has_ptr, mem_has_ptr, GC_ALL_PAGES, GC_PAGE_SIZE};
use crate::bits::{set_cell_bit, set_slots, test_cell_bit, zeroed_cells};

verus! {

/// A page after its mark bits have been cleared.
pub open spec fn unmarked(v: PageView) -> PageView {
    PageView {
        bmp: Some(Seq::new(((v.max_blocks + 7) / 8) as nat, |i: int| 0u8)),
        need_flush: true,
        ..v
    }
}

/// The pages after the first `k` ones of a list have been prepared for marking.
pub open spec fn list_unmarked(pages: Seq<PageView>, list: Seq<usize>, k: int) -> Seq<PageView>
    decreases k,
{
    if k <= 0 {
        pages
    } else {
        let rest = list_unmarked(pages, list, k - 1);
        let id = list[list.len() - k] as int;
        rest.update(id, unmarked(rest[id]))
    }
}

/// The pages after those of the first `n` lists have been prepared for marking, the
/// newest page of each first; every page may have free blocks again.
pub open spec fn all_unmarked(g: GcView, n: int) -> GcView
    decreases n,
{
    if n <= 0 {
        g
    } else {
        let rest = all_unmarked(g, n - 1);
        GcView {
            pages: list_unmarked(rest.pages, rest.lists[n - 1], rest.lists[n - 1].len() as int),
            free: rest.free.update(n - 1, rest.lists[n - 1].len() as int),
            ..rest
        }
    }
}

/// Whether nothing on a page is marked, as far as its cells tell.
pub open spec fn page_dead(v: PageView) -> bool {
    v.bmp is Some && forall|i: int|
        v.first_block / 8 <= i < (v.max_blocks + 7) / 8 ==> #[trigger] v.bmp->0[i] == 0
}

/// The pages after the dead ones among the first `k` of a list have been removed, the
/// newest first.
pub open spec fn dead_removed(g: GcView, pid: int, k: int) -> GcView
    decreases k,
{
    if k <= 0 {
        g
    } else {
        let id = g.lists[pid][k - 1] as int;
        let p = g.pages[id];
        if page_dead(p) {
            let g1 = GcView {
                lists: g.lists.update(pid, g.lists[pid].remove(k - 1)),
                free: g.free.update(
                    pid,
                    if g.free[pid] >= k {
                        g.free[pid] - 1
                    } else {
                        g.free[pid]
                    },
                ),
                store: given(g.store, p.bits),
                ..g
            };
            dead_removed(page_removed(g1, id, p.max_blocks), pid, k - 1)
        } else {
            dead_removed(g, pid, k - 1)
        }
    }
}

/// The pages after the dead ones of the first `n` lists have been removed.
pub open spec fn all_dead_removed(g: GcView, n: int) -> GcView
    decreases n,
{
    if n <= 0 {
        g
    } else {
        let rest = all_dead_removed(g, n - 1);
        dead_removed(rest, n - 1, rest.lists[n - 1].len() as int)
    }
}

/// The size of the mark bits for `bytes` bytes, grown by doubling.
pub open spec fn mark_bits_size(size: int, bytes: int) -> int
    decreases 2 * bytes - size,
{
    if 0 < size < bytes {
        mark_bits_size(2 * size, bytes)
    } else {
        size
    }
}

impl GarbageCollector {
    /// Makes room for the mark bits. Tells whether new memory is needed for them.
    pub fn grow_mark_bits(&mut self) -> (r: bool)
        requires
            old(self).stats.mark_bytes <= 0x4000_0000,
        ensures
            *final(self) == (GarbageCollector { mark_size: final(self).mark_size, ..*old(self) }),
            r == (old(self).stats.mark_bytes > old(self).mark_size),
            !r ==> final(self).mark_size == old(self).mark_size,
            r ==> final(self).mark_size == mark_bits_size(
                if old(self).mark_size == 0 {
                    65536
                } else {
                    old(self).mark_size as int
                },
                old(self).stats.mark_bytes as int,
            ) && final(self).mark_size >= old(self).stats.mark_bytes,
    {
        let ghost before = *self;
        let mark_bytes: usize = self.stats.mark_bytes;
        if mark_bytes > self.mark_size {
            let mut size: usize = self.mark_size;
            if size == 0 {
                size = GC_PAGE_SIZE;
            }
            let ghost goal = mark_bits_size(size as int, mark_bytes as int);
            while size < mark_bytes
                invariant
                    0 < size,
                    mark_bytes <= 0x4000_0000,
                    goal == mark_bits_size(size as int, mark_bytes as int),
                decreases 2 * mark_bytes - size,
            {
                size = size * 2;
            }
            self.mark_size = size;
            return true;
        }
        false
    }

    /// Clears the mark bits of all pages.
    pub fn before_mark(&mut self)
        requires
            old(self).wf(),
        ensures
            final(self).wf(),
            final(self).same_rest(old(self)),
            final(self).gc_pages == old(self).gc_pages,
            final(self)@ == all_unmarked(old(self)@, GC_ALL_PAGES as int),
    {
        let ghost before = *self;
        let mut pid: usize = 0;
        while pid < GC_ALL_PAGES
            invariant
                pid <= GC_ALL_PAGES,
                self.wf(),
                self.same_rest(&before),
                self.gc_pages == before.gc_pages,
                self@ == all_unmarked(before@, pid as int),
            decreases GC_ALL_PAGES - pid,
        {
            let n: usize = self.gc_pages[pid].len();
            let ghost outer = self@;
            let ghost list = self.gc_pages@[pid as int]@;
            self.gc_free_pages.set(pid, n);
            let ghost start = self@;
            proof {
                assert(start.free =~= outer.free.update(pid as int, n as int));
                assert(start.pages =~= outer.pages);
                assert(start.lists =~= outer.lists);
                assert(list == start.lists[pid as int]);
            }
            let mut k: usize = 0;
            while k < n
                invariant
                    k <= n,
                    n == list.len(),
                    pid < GC_ALL_PAGES,
                    self.wf(),
                    self.same_rest(&before),
                    self.gc_pages == before.gc_pages,
                    list == self.gc_pages@[pid as int]@,
                    list == start.lists[pid as int],
                    self@ == (GcView {
                        pages: list_unmarked(start.pages, list, k as int),
                        ..start
                    }),
                decreases n - k,
            {
                let ghost prev = *self;
                let id: usize = self.gc_pages[pid][n - 1 - k];
                assert(self.gc_pages@[pid as int]@[n - 1 - k] < self.headers@.len());
                let cells: usize = (self.headers[id].alloc.max_blocks + 7) / 8;
                let zeros: Vec<u8> = zeroed_cells(cells);
                assert(zeros@ =~= Seq::new(cells as nat, |i: int| 0u8));
                self.headers[id].bmp = Some(zeros);
                self.headers[id].alloc.need_flush = true;
                proof {
                    assert(self@.pages =~= prev@.pages.update(
                        id as int,
                        unmarked(prev@.pages[id as int]),
                    ));
                    assert(self@.lists =~= prev@.lists);
                    assert(self@.free =~= prev@.free);
                }
                k = k + 1;
            }
            pid = pid + 1;
        }
    }

    /// Removes the pages on which nothing is marked. The result are those pages.
    pub fn flush_empty_pages(&mut self) -> (r: Vec<usize>)
        requires
            old(self).wf(),
        ensures
            final(self).wf(),
            final(self).same_rest(old(self)),
            final(self)@ == all_dead_removed(old(self)@, GC_ALL_PAGES as int),
            final(self)@.spare == old(self)@.spare + r@,
    {
        let ghost before = *self;
        let mut gone: Vec<usize> = Vec::new();
        assert(before@.spare + gone@ =~= before@.spare);
        let mut pid: usize = 0;
        while pid < GC_ALL_PAGES
            invariant
                pid <= GC_ALL_PAGES,
                self.wf(),
                self.same_rest(&before),
                self@ == all_dead_removed(before@, pid as int),
                self@.spare == before@.spare + gone@,
            decreases GC_ALL_PAGES - pid,
        {
            let mut k: usize = self.gc_pages[pid].len();
            let ghost goal = all_dead_removed(before@, pid + 1);
            while k > 0
                invariant
                    pid < GC_ALL_PAGES,
                    self.wf(),
                    self.same_rest(&before),
                    k <= self.gc_pages@[pid as int]@.len(),
                    goal == dead_removed(self@, pid as int, k as int),
                    self@.spare == before@.spare + gone@,
                decreases k,
            {
                let id: usize = self.gc_pages[pid][k - 1];
                assert(self.gc_pages@[pid as int]@[k - 1] < self.headers@.len());
                let ghost g = self@;
                assert(g.lists[pid as int][k - 1] == id);
                let first: usize = self.headers[id].alloc.first_block / 8;
                let cells: usize = (self.headers[id].alloc.max_blocks + 7) / 8;
                let dead: bool = match &self.headers[id].bmp {
                    Some(bmp) => is_zero(bmp, first, cells - first),
                    None => false,
                };
                proof {
                    let v = g.pages[id as int];
                    assert(v == self.headers@[id as int]@);
                    if dead {
                        assert forall|i: int|
                            v.first_block / 8 <= i < (v.max_blocks + 7) / 8 implies #[trigger] v.bmp->0[i]
                            == 0 by {
                            assert(self.headers@[id as int].bmp->0@[i] == 0);
                        }
                    }
                    if page_dead(v) {
                        assert forall|i: int| first <= i < cells implies #[trigger] self.headers@[id as int].bmp->0@[i]
                            == 0 by {
                            assert(v.bmp->0[i] == 0);
                        }
                    }
                }
                if dead {
                    let ghost prev = *self;
                    let bits: usize = self.headers[id].alloc.free.size_bits;
                    let blocks: usize = self.headers[id].alloc.max_blocks;
                    let removed: usize = self.gc_pages[pid].remove(k - 1);
                    if self.gc_free_pages[pid] >= k {
                        let n: usize = self.gc_free_pages[pid];
                        self.gc_free_pages.set(pid, n - 1);
                    }
                    self.store.free_freelist(bits);
                    proof {
                        assert forall|p: int, j: int|
                            0 <= p < GC_ALL_PAGES && 0 <= j < self.gc_pages@[p]@.len() implies (
                        #[trigger] self.gc_pages@[p]@[j]) < self.headers@.len() by {
                            if p == pid {
                                let at = if j < k - 1 {
                                    j
                                } else {
                                    j + 1
                                };
                                assert(self.gc_pages@[p]@[j] == prev.gc_pages@[p]@[at]);
                            } else {
                                assert(self.gc_pages@[p]@[j] == prev.gc_pages@[p]@[j]);
                            }
                        }
                        assert forall|p: int| 0 <= p < GC_ALL_PAGES implies (
                        #[trigger] self.gc_free_pages@[p]) <= self.gc_pages@[p]@.len() by {
                            assert(prev.gc_free_pages@[p] <= prev.gc_pages@[p]@.len());
                        }
                        let g1 = GcView {
                            lists: g.lists.update(
                                pid as int,
                                g.lists[pid as int].remove(k - 1),
                            ),
                            free: g.free.update(
                                pid as int,
                                if g.free[pid as int] >= k {
                                    g.free[pid as int] - 1
                                } else {
                                    g.free[pid as int]
                                },
                            ),
                            store: given(g.store, g.pages[id as int].bits),
                            ..g
                        };
                        assert(self@.lists =~~= g1.lists);
                        assert(self@.free =~= g1.free);
                        assert(self@.pages =~= g1.pages);
                    }
                    self.free_page(id, blocks);
                    gone.push(id);
                    assert(self@.spare =~= before@.spare + gone@);
                    assert(self@.lists[pid as int].len() == self.gc_pages@[pid as int]@.len());
                }
                k = k - 1;
            }
            pid = pid + 1;
        }
        gone
    }
}

/// The page and the block of the object that a word points into, if it does.
pub open spec fn target(pages: Seq<PageView>, table: Seq<Seq<Option<usize>>>, p: u64) -> Option<
    (int, int),
> {
    match page_in(table, p) {
        None => None,
        Some(id) => {
            let v = pages[id as int];
            if v.base <= p < v.base + v.page_size {
                match interior_block(v, p as int) {
                    Some(b) => Some((id as int, b)),
                    None => None,
                }
            } else {
                None
            }
        },
    }
}

/// Whether a word leads to a page that can be marked: there is a bit for every block,
/// and every address of the page leads to it.
pub open spec fn page_ready(gc: &GarbageCollector, id: int) -> bool {
    let h = gc.headers@[id];
    &&& 0 <= id < gc.headers@.len()
    &&& h.alloc.block_size > 0
    &&& h.alloc.block_size % 8 == 0
    &&& 255 * h.alloc.block_size <= usize::MAX
    &&& h.bmp is Some
    &&& (h.page_size - 1) / (h.alloc.block_size as int) < 8 * h.bmp->0@.len()
    &&& h.alloc.sizes is Some ==> (h.page_size - 1) / (h.alloc.block_size as int)
        < h.alloc.max_blocks
    &&& h.base % 8 == 0
    &&& forall|q: u64|
        h.base <= q < h.base + h.page_size ==> #[trigger] page_in(gc.map@, q) == Some(id as usize)
}

/// Whether a word that leads to page `id` leads to one that can be marked.
pub open spec fn leads_well(gc: &GarbageCollector, p: u64, id: int) -> bool {
    &&& id < gc.headers@.len()
    &&& gc.headers@[id].base <= p < gc.headers@[id].base + gc.headers@[id].page_size
        ==> page_ready(gc, id)
}

/// Whether every word leads to a page that can be marked, or to none.
pub open spec fn marks_ready(gc: &GarbageCollector) -> bool {
    forall|p: u64|
        (#[trigger] page_in(gc.map@, p)) is Some ==> leads_well(
            gc,
            p,
            page_in(gc.map@, p)->0 as int,
        )
}

/// Whether block `b` of page `id` is marked.
pub open spec fn is_marked(gc: &GarbageCollector, id: int, b: int) -> bool {
    gc.headers@[id].bmp is Some && set_slots(gc.headers@[id].bmp->0@).contains(b)
}

/// Whether only mark bits have been set.
pub open spec fn only_marks(before: &GarbageCollector, after: &GarbageCollector) -> bool {
    &&& after.headers@.len() == before.headers@.len()
    &&& forall|i: int|
        0 <= i < before.headers@.len() ==> {
            let v = before.headers@[i]@;
            let w = (#[trigger] after.headers@[i])@;
            &&& w == (PageView { bmp: w.bmp, ..v })
            &&& w.bmp is Some == v.bmp is Some
            &&& w.bmp is Some ==> w.bmp->0.len() == v.bmp->0.len()
            &&& w.bmp is Some ==> set_slots(v.bmp->0).subset_of(set_slots(w.bmp->0))
            &&& w.bmp is None ==> after.headers@[i] == before.headers@[i]
        }
    &&& after.map == before.map
    &&& after.free_pheaders == before.free_pheaders
    &&& after.gc_pages == before.gc_pages
    &&& after.gc_free_pages == before.gc_free_pages
    &&& after.store == before.store
    &&& after.mark_size == before.mark_size
    &&& after.extra_pages == before.extra_pages
    &&& after.base_addr == before.base_addr
    &&& after.recursions == before.recursions
    &&& after.stats == before.stats
}

/// The start of block `b` of a page.
pub open spec fn object_start(v: PageView, b: int) -> u64 {
    (v.base + b * v.block_size) as u64
}

/// Whether following a word has had its effect: the object that it points into is
/// marked; if it was not before and may hold pointers, it is on the stack.
pub open spec fn word_marked(before: &GarbageCollector, after: &GarbageCollector, p: u64) -> bool {
    match target(before@.pages, before.map@, p) {
        None => *after == *before,
        Some((id, b)) => {
            &&& only_marks(before, after)
            &&& forall|i: int|
                0 <= i < before.headers@.len() && i != id ==> #[trigger] after.headers@[i]
                    == before.headers@[i]
            &&& set_slots(after.headers@[id].bmp->0@) == set_slots(
                before.headers@[id].bmp->0@,
            ).insert(b)
            &&& after.mark_stack@ == if !is_marked(before, id, b) && has_ptr(
                before.headers@[id].page_kind,
            ) {
                before.mark_stack@.push(object_start(before.headers@[id]@, b))
            } else {
                before.mark_stack@
            }
        },
    }
}

/// Marks that grow do not change where words point.
proof fn lemma_only_marks(before: &GarbageCollector, after: &GarbageCollector)
    requires
        before.wf(),
        marks_ready(before),
        only_marks(before, after),
    ensures
        after.wf(),
        marks_ready(after),
        forall|p: u64| #[trigger]
            target(after@.pages, after.map@, p) == target(before@.pages, before.map@, p),
        forall|id: int, b: int|
            0 <= id < before.headers@.len() && #[trigger] is_marked(before, id, b) ==> is_marked(
                after,
                id,
                b,
            ),
{
    assert forall|i: int| 0 <= i < after.headers@.len() implies {
        &&& (#[trigger] after.headers@[i]).wf()
        &&& after.headers@[i].alloc.need_flush ==> after.headers@[i].bmp is Some
        &&& after.headers@[i].base + after.headers@[i].page_size <= u64::MAX
        &&& after.headers@[i].page_size <= i32::MAX
    } by {
        let h = before.headers@[i];
        let k = after.headers@[i];
        assert(h.wf());
        assert(k@ == (PageView { bmp: k@.bmp, ..h@ }));
        assert(k.alloc.free.data@ == h.alloc.free.data@);
        assert(held_eq(k.alloc.sizes, h.alloc.sizes));
        assert forall|b: int| 0 <= b < k.alloc.max_blocks implies b + #[trigger] super::page::span(
            k.alloc.sizes,
            b,
        ) <= k.alloc.max_blocks by {
            assert(b + super::page::span(h.alloc.sizes, b) <= h.alloc.max_blocks);
        }
        assert forall|j: int| 0 <= j < k.alloc.free.data@.len() implies (
        #[trigger] k.alloc.free.data@[j]).end() <= k.alloc.max_blocks by {
            assert(h.alloc.free.data@[j].end() <= h.alloc.max_blocks);
        }
    }
    assert forall|p: u64| #[trigger] target(after@.pages, after.map@, p) == target(
        before@.pages,
        before.map@,
        p,
    ) by {
        if let Some(id) = page_in(before.map@, p) {
            assert(leads_well(before, p, id as int));
            assert(after.headers@[id as int]@ == (PageView {
                bmp: after.headers@[id as int]@.bmp,
                ..before.headers@[id as int]@
            }));
        }
    }
    assert forall|p: u64| (#[trigger] page_in(after.map@, p)) is Some implies leads_well(
        after,
        p,
        page_in(after.map@, p)->0 as int,
    ) by {
        let id = page_in(after.map@, p)->0;
        assert(page_in(before.map@, p) == Some(id));
        assert(leads_well(before, p, id as int));
        let k = after.headers@[id as int];
        let h = before.headers@[id as int];
        assert(k@ == (PageView { bmp: k@.bmp, ..h@ }));
        assert(held_eq(k.alloc.sizes, h.alloc.sizes));
    }
    assert forall|id: int, b: int|
        0 <= id < before.headers@.len() && #[trigger] is_marked(before, id, b) implies is_marked(
        after,
        id,
        b,
    ) by {
        let k = after.headers@[id];
        assert(set_slots(before.headers@[id]@.bmp->0).contains(b));
        assert(set_slots(before.headers@[id]@.bmp->0).subset_of(set_slots(k@.bmp->0)));
    }
}

/// Whether two vectors, if they are there, hold the same.
pub open spec fn held_eq(a: Option<Vec<u8>>, b: Option<Vec<u8>>) -> bool {
    super::page::held(a) == super::page::held(b)
}

impl GarbageCollector {
    /// Follows a word.
    pub fn mark_word(&mut self, p: u64)
        requires
            old(self).wf(),
            marks_ready(old(self)),
        ensures
            final(self).wf(),
            marks_ready(final(self)),
            word_marked(old(self), final(self), p),
            only_marks(old(self), final(self)),
    {
        let ghost before = *self;
        proof {
            lemma_only_marks_refl(self);
        }
        let id: usize = match self.map.get_page(p) {
            None => {
                return ;
            },
            Some(id) => id,
        };
        assert(leads_well(self, p, id as int));
        if !self.headers[id].in_page(p) {
            return ;
        }
        proof {
            let h = self.headers@[id as int];
            assert(leads_well(self, p, id as int));
            assert(page_ready(self, id as int));
            let d = (p - h.base) as int;
            let n = h.alloc.block_size as int;
            assert(d / n <= (h.page_size - 1) / n) by {
                vstd::arithmetic::div_mod::lemma_div_is_ordered(d, h.page_size - 1, n);
            }
            assert(self@.pages[id as int] == h@);
        }
        let bid: usize = match self.headers[id].get_block_interior(p) {
            None => {
                return ;
            },
            Some(bid) => bid,
        };
        assert(8 * (bid as int / 8) + bid as int % 8 == bid);
        let mut bmp: Option<Vec<u8>> = None;
        std::mem::swap(&mut bmp, &mut self.headers[id].bmp);
        match bmp {
            Some(mut cells) => {
                let seen: bool = test_cell_bit(&cells, bid / 8, bid % 8);
                set_cell_bit(&mut cells, bid / 8, bid % 8);
                self.headers[id].bmp = Some(cells);
                if !seen && mem_has_ptr(self.headers[id].page_kind) {
                    let base: u64 = self.headers[id].base;
                    let block: usize = self.headers[id].alloc.block_size;
                    proof {
                        let h = before.headers@[id as int];
                        let d = (p - h.base) as int;
                        assert(bid * block <= d) by (nonlinear_arith)
                            requires
                                bid <= d / block as int,
                                block > 0,
                        ;
                    }
                    self.mark_stack.push(base + (bid * block) as u64);
                }
            },
            None => {},
        }
        proof {
            assert(only_marks(&before, self)) by {
                assert forall|i: int| 0 <= i < before.headers@.len() implies {
                    let v = before.headers@[i]@;
                    let w = (#[trigger] self.headers@[i])@;
                    &&& w == (PageView { bmp: w.bmp, ..v })
                    &&& w.bmp is Some == v.bmp is Some
                    &&& w.bmp is Some ==> w.bmp->0.len() == v.bmp->0.len()
                    &&& w.bmp is Some ==> set_slots(v.bmp->0).subset_of(set_slots(w.bmp->0))
                    &&& w.bmp is None ==> self.headers@[i] == before.headers@[i]
                } by {
                    if i != id {
                        assert(self.headers@[i] == before.headers@[i]);
                    }
                }
            }
            lemma_only_marks(&before, self);
        }
    }

    /// Follows words in order.
    pub fn mark_words(&mut self, words: &Vec<u64>)
        requires
            old(self).wf(),
            marks_ready(old(self)),
        ensures
            final(self).wf(),
            marks_ready(final(self)),
            only_marks(old(self), final(self)),
            forall|k: int|
                0 <= k < words@.len() ==> ((#[trigger] target(
                    old(self)@.pages,
                    old(self).map@,
                    words@[k],
                )) matches Some((id, b)) ==> is_marked(final(self), id, b)),
            exists|trace: Seq<GarbageCollector>|
                {
                    &&& #[trigger] words_traced(trace, words@)
                    &&& trace[0] == *old(self)
                    &&& trace.last() == *final(self)
                },
            stack_ok(old(self)) ==> stack_ok(final(self)),
            stack_ok(old(self)) ==> forall|memory: Seq<Vec<u64>>| #[trigger]
                all_seen_to(old(self), memory) ==> all_seen_to(final(self), memory),
            stack_ok(old(self)) ==> forall|s: Set<(int, int)>| #[trigger]
                within(old(self), s) && words_in(old(self), words@, s) ==> within(final(self), s),
    {
        let ghost before = *self;
        let ghost mut trace: Seq<GarbageCollector> = seq![*self];
        let mut i: usize = 0;
        proof {
            lemma_only_marks_refl(self);
        }
        while i < words.len()
            invariant
                i <= words@.len(),
                before.wf(),
                marks_ready(&before),
                self.wf(),
                marks_ready(self),
                only_marks(&before, self),
                trace.len() == i + 1,
                trace[0] == before,
                trace[i as int] == *self,
                words_traced(trace, words@.take(i as int)),
                stack_ok(&before) ==> stack_ok(self),
                stack_ok(&before) ==> forall|memory: Seq<Vec<u64>>| #[trigger]
                    all_seen_to(&before, memory) ==> all_seen_to(self, memory),
                stack_ok(&before) ==> forall|s: Set<(int, int)>| #[trigger]
                    within(&before, s) && words_in(&before, words@, s) ==> within(self, s),
                forall|k: int|
                    0 <= k < i ==> ((#[trigger] target(
                        before@.pages,
                        before.map@,
                        words@[k],
                    )) matches Some((id, b)) ==> is_marked(self, id, b)),
            decreases words@.len() - i,
        {
            let ghost prev = *self;
            self.mark_word(words[i]);
            proof {
                if stack_ok(&before) {
                    lemma_word_stack(&prev, self, words@[i as int]);
                    assert forall|memory: Seq<Vec<u64>>| #[trigger]
                        all_seen_to(&before, memory) implies all_seen_to(self, memory) by {
                        assert(all_seen_to(&prev, memory));
                        lemma_word_seen_to(&prev, self, memory, words@[i as int], -1, -1);
                        assert forall|id: int, b: int| #[trigger] seen_to(self, memory, id, b) by {}
                    }
                }
                lemma_only_marks_trans(&before, &prev, self);
                lemma_only_marks(&before, &prev);
                lemma_only_marks(&prev, self);
                assert forall|s: Set<(int, int)>|
                    stack_ok(&before) && #[trigger] within(&before, s) && words_in(
                        &before,
                        words@,
                        s,
                    ) implies within(self, s) by {
                    let p = words@[i as int];
                    assert(target(prev@.pages, prev.map@, p) == target(
                        before@.pages,
                        before.map@,
                        p,
                    ));
                    lemma_word_within(&prev, self, p, s);
                }
                assert forall|k: int| 0 <= k < i + 1 implies ((#[trigger] target(
                    before@.pages,
                    before.map@,
                    words@[k],
                )) matches Some((id, b)) ==> is_marked(self, id, b)) by {
                    if let Some((id, b)) = target(before@.pages, before.map@, words@[k]) {
                        lemma_target(&before, words@[k]);
                        if k < i {
                            assert(is_marked(&prev, id, b));
                        } else {
                            assert(target(prev@.pages, prev.map@, words@[k]) == Some((id, b)));
                        }
                    }
                }
                let longer = trace.push(*self);
                assert(words_traced(longer, words@.take(i + 1))) by {
                    assert forall|k: int| 0 <= k < i + 1 implies #[trigger] word_marked(
                        &longer[k],
                        &longer[k + 1],
                        words@.take(i + 1)[k],
                    ) by {
                        if k < i {
                            assert(words@.take(i as int)[k] == words@.take(i + 1)[k]);
                            assert(word_marked(
                                &trace[k],
                                &trace[k + 1],
                                words@.take(i as int)[k],
                            ));
                        }
                    }
                }
                trace = longer;
            }
            i = i + 1;
        }
        proof {
            assert(words@.take(i as int) =~= words@);
            assert(trace.last() == trace[i as int]);
        }
    }
}

/// Whether each state comes from the one before it by following a word.
pub open spec fn words_traced(trace: Seq<GarbageCollector>, words: Seq<u64>) -> bool {
    &&& trace.len() == words.len() + 1
    &&& forall|k: int|
        0 <= k < words.len() ==> #[trigger] word_marked(&trace[k], &trace[k + 1], words[k])
}

proof fn lemma_only_marks_refl(gc: &GarbageCollector)
    ensures
        only_marks(gc, gc),
{
}

proof fn lemma_only_marks_trans(
    a: &GarbageCollector,
    b: &GarbageCollector,
    c: &GarbageCollector,
)
    requires
        only_marks(a, b),
        only_marks(b, c),
    ensures
        only_marks(a, c),
{
    assert forall|i: int| 0 <= i < a.headers@.len() implies {
        let v = a.headers@[i]@;
        let w = (#[trigger] c.headers@[i])@;
        &&& w == (PageView { bmp: w.bmp, ..v })
        &&& w.bmp is Some == v.bmp is Some
        &&& w.bmp is Some ==> w.bmp->0.len() == v.bmp->0.len()
        &&& w.bmp is Some ==> set_slots(v.bmp->0).subset_of(set_slots(w.bmp->0))
        &&& w.bmp is None ==> c.headers@[i] == a.headers@[i]
    } by {
        let u = b.headers@[i]@;
        assert(u == (PageView { bmp: u.bmp, ..a.headers@[i]@ }));
    }
}

/// A target is a block of a page that can be marked.
proof fn lemma_target(gc: &GarbageCollector, p: u64)
    requires
        gc.wf(),
        marks_ready(gc),
        target(gc@.pages, gc.map@, p) is Some,
    ensures
        ({
            let (id, b) = target(gc@.pages, gc.map@, p)->0;
            &&& page_ready(gc, id)
            &&& 0 <= id < gc.headers@.len()
        }),
{
    let id = page_in(gc.map@, p)->0;
    assert(leads_well(gc, p, id as int));
    assert(gc@.pages[id as int] == gc.headers@[id as int]@);
}

/// The number of words of the object at block `b`, as far as they lie in the page.
pub open spec fn object_words(v: PageView, b: int) -> int {
    let room = v.page_size - b * v.block_size;
    (if object_bytes(v, b) < room {
        object_bytes(v, b)
    } else {
        room
    }) / 8
}

/// Word `w` of the object at block `b` of page `id`.
pub open spec fn object_word(memory: Seq<Vec<u64>>, v: PageView, id: int, b: int, w: int) -> u64 {
    memory[id]@[b * v.block_size / 8 + w]
}

/// Whether a place is that of a block of a page that can be marked.
pub open spec fn is_block(gc: &GarbageCollector, id: int, b: int) -> bool {
    &&& 0 <= id < gc.headers@.len()
    &&& page_ready(gc, id)
    &&& 0 <= b
    &&& b * gc.headers@[id].alloc.block_size < gc.headers@[id].page_size
}

/// Whether the first `n` words of an object point into marked objects or nowhere.
pub open spec fn scanned_to(
    gc: &GarbageCollector,
    memory: Seq<Vec<u64>>,
    id: int,
    b: int,
    n: int,
) -> bool {
    forall|w: int|
        0 <= w < n ==> (target(
            gc@.pages,
            gc.map@,
            #[trigger] object_word(memory, gc.headers@[id]@, id, b, w),
        ) matches Some((i, c)) ==> is_marked(gc, i, c))
}

/// Whether all words of an object point into marked objects or nowhere.
pub open spec fn scanned(gc: &GarbageCollector, memory: Seq<Vec<u64>>, id: int, b: int) -> bool {
    scanned_to(gc, memory, id, b, object_words(gc.headers@[id]@, b))
}

/// Whether a marked object has been scanned or is waiting on the stack.
pub open spec fn seen_to(gc: &GarbageCollector, memory: Seq<Vec<u64>>, id: int, b: int) -> bool {
    is_block(gc, id, b) && is_marked(gc, id, b) && has_ptr(gc.headers@[id].page_kind) ==> scanned(
        gc,
        memory,
        id,
        b,
    ) || gc.mark_stack@.contains(object_start(gc.headers@[id]@, b))
}

/// Whether every marked object has been scanned or is waiting on the stack.
pub open spec fn all_seen_to(gc: &GarbageCollector, memory: Seq<Vec<u64>>) -> bool {
    forall|id: int, b: int| #[trigger] seen_to(gc, memory, id, b)
}

/// Whether an address on the stack is the start of a block.
pub open spec fn stack_entry_ok(gc: &GarbageCollector, a: u64) -> bool {
    &&& page_in(gc.map@, a) is Some
    &&& ({
        let id = page_in(gc.map@, a)->0 as int;
        let h = gc.headers@[id];
        &&& 0 <= id < gc.headers@.len()
        &&& page_ready(gc, id)
        &&& h.base <= a < h.base + h.page_size
        &&& (a - h.base) % (h.alloc.block_size as int) == 0
    })
}

/// Whether all addresses on the stack are starts of blocks.
pub open spec fn stack_ok(gc: &GarbageCollector) -> bool {
    forall|k: int| 0 <= k < gc.mark_stack@.len() ==> stack_entry_ok(gc, #[trigger] gc.mark_stack@[k])
}

/// Whether the words of every page are known.
pub open spec fn memory_ok(gc: &GarbageCollector, memory: Seq<Vec<u64>>) -> bool {
    &&& memory.len() == gc.headers@.len()
    &&& forall|id: int|
        0 <= id < memory.len() ==> 8 * (#[trigger] memory[id])@.len() >= gc.headers@[id].page_size
}

/// Whether what the words of the objects in a set point into lies in the set.
pub open spec fn closed_under(
    gc: &GarbageCollector,
    memory: Seq<Vec<u64>>,
    s: Set<(int, int)>,
) -> bool {
    forall|id: int, b: int, w: int|
        s.contains((id, b)) && is_block(gc, id, b) && has_ptr(gc.headers@[id].page_kind) && 0 <= w
            < object_words(gc.headers@[id]@, b) ==> (target(
            gc@.pages,
            gc.map@,
            #[trigger] object_word(memory, gc.headers@[id]@, id, b, w),
        ) matches Some(t) ==> s.contains(t))
}

/// Whether what words point into lies in a set.
pub open spec fn words_in(gc: &GarbageCollector, words: Seq<u64>, s: Set<(int, int)>) -> bool {
    forall|k: int|
        0 <= k < words.len() ==> (target(gc@.pages, gc.map@, #[trigger] words[k]) matches Some(t)
            ==> s.contains(t))
}

/// Whether an address on the stack is that of an object in a set that may hold pointers.
pub open spec fn entry_within(gc: &GarbageCollector, a: u64, s: Set<(int, int)>) -> bool {
    page_in(gc.map@, a) matches Some(id) ==> {
        let h = gc.headers@[id as int];
        has_ptr(h.page_kind) && s.contains(
            (id as int, (a - h.base) / (h.alloc.block_size as int)),
        )
    }
}

/// Whether only objects of a set are marked or wait on the stack.
pub open spec fn within(gc: &GarbageCollector, s: Set<(int, int)>) -> bool {
    &&& forall|id: int, b: int|
        is_block(gc, id, b) && #[trigger] is_marked(gc, id, b) ==> s.contains((id, b))
    &&& forall|k: int|
        0 <= k < gc.mark_stack@.len() ==> entry_within(gc, #[trigger] gc.mark_stack@[k], s)
}

/// Following a word that points into a set marks nothing outside of it.
proof fn lemma_word_within(
    before: &GarbageCollector,
    after: &GarbageCollector,
    p: u64,
    s: Set<(int, int)>,
)
    requires
        before.wf(),
        marks_ready(before),
        stack_ok(before),
        word_marked(before, after, p),
        within(before, s),
        target(before@.pages, before.map@, p) matches Some(t) ==> s.contains(t),
    ensures
        within(after, s),
{
    if let Some((id, b)) = target(before@.pages, before.map@, p) {
        lemma_only_marks(before, after);
        lemma_target_block(before, p);
        lemma_block_start(before, id, b);
        assert(before.headers@.len() == before.headers.len());
        assert forall|i: int, c: int| is_block(after, i, c) && #[trigger] is_marked(
            after,
            i,
            c,
        ) implies s.contains((i, c)) by {
            lemma_blocks_same(before, after, i, c);
            if i != id {
                assert(after.headers@[i] == before.headers@[i]);
                assert(is_marked(before, i, c));
            } else if c != b {
                assert(is_marked(before, i, c));
            }
        }
        assert forall|k: int| 0 <= k < after.mark_stack@.len() implies entry_within(
            after,
            #[trigger] after.mark_stack@[k],
            s,
        ) by {
            let a = after.mark_stack@[k];
            if k < before.mark_stack@.len() {
                assert(a == before.mark_stack@[k]);
                assert(entry_within(before, a, s));
                assert(stack_entry_ok(before, a));
            }
            let i = page_in(before.map@, a)->0 as int;
            assert(0 <= i < before.headers@.len());
            let v = before.headers@[i]@;
            let w = after.headers@[i]@;
            assert(w == (PageView { bmp: w.bmp, ..v }));
        }
    }
}

/// Marks that grow do not change which sets are closed.
proof fn lemma_closed_kept(
    before: &GarbageCollector,
    after: &GarbageCollector,
    memory: Seq<Vec<u64>>,
    s: Set<(int, int)>,
)
    requires
        before.wf(),
        marks_ready(before),
        only_marks(before, after),
        closed_under(before, memory, s),
    ensures
        closed_under(after, memory, s),
{
    lemma_only_marks(before, after);
    assert forall|id: int, b: int, w: int|
        s.contains((id, b)) && is_block(after, id, b) && has_ptr(after.headers@[id].page_kind) && 0
            <= w < object_words(after.headers@[id]@, b) implies (target(
        after@.pages,
        after.map@,
        #[trigger] object_word(memory, after.headers@[id]@, id, b, w),
    ) matches Some(t) ==> s.contains(t)) by {
        lemma_blocks_same(before, after, id, b);
        let u = after.headers@[id]@;
        let v = before.headers@[id]@;
        assert(u == (PageView { bmp: u.bmp, ..v }));
        let p = object_word(memory, v, id, b, w);
        assert(p == object_word(memory, u, id, b, w));
        assert(target(after@.pages, after.map@, p) == target(before@.pages, before.map@, p));
    }
}

/// A block's start leads back to it.
proof fn lemma_block_start(gc: &GarbageCollector, id: int, b: int)
    requires
        gc.wf(),
        is_block(gc, id, b),
    ensures
        ({
            let h = gc.headers@[id];
            let a = object_start(h@, b);
            &&& a == h.base + b * h.alloc.block_size
            &&& page_in(gc.map@, a) == Some(id as usize)
            &&& (a - h.base) / (h.alloc.block_size as int) == b
            &&& stack_entry_ok(gc, a)
        }),
{
    let h = gc.headers@[id];
    let n = h.alloc.block_size as int;
    let a = object_start(h@, b);
    assert(gc.headers@.len() == gc.headers.len());
    assert(b * n >= 0) by (nonlinear_arith)
        requires
            b >= 0,
            n > 0,
    ;
    assert(h.base + b * n <= u64::MAX);
    assert(a == h.base + b * n);
    vstd::arithmetic::div_mod::lemma_div_multiples_vanish(b, n);
    vstd::arithmetic::div_mod::lemma_mod_multiples_basic(b, n);
    assert((b * n) / n == b);
}

/// The target of a word is a block.
proof fn lemma_target_block(gc: &GarbageCollector, p: u64)
    requires
        gc.wf(),
        marks_ready(gc),
        target(gc@.pages, gc.map@, p) is Some,
    ensures
        ({
            let (id, b) = target(gc@.pages, gc.map@, p)->0;
            is_block(gc, id, b)
        }),
{
    lemma_target(gc, p);
    let (id, b) = target(gc@.pages, gc.map@, p)->0;
    let h = gc.headers@[id];
    assert(gc@.pages[id] == h@);
    let d = p - h.base;
    let n = h.alloc.block_size as int;
    let q = d / n;
    vstd::arithmetic::div_mod::lemma_div_pos_is_pos(d, n);
    if let Some(s) = h@.sizes {
        lemma_object_block(s, h@.first_block, q);
    }
    assert(0 <= b <= q);
    vstd::arithmetic::div_mod::lemma_fundamental_div_mod(d, n);
    assert(b * n <= d) by (nonlinear_arith)
        requires
            0 <= b <= q,
            n > 0,
            d == n * q + d % n,
            0 <= d % n,
    ;
}

proof fn lemma_object_block(sizes: Seq<u8>, first: int, b: int)
    requires
        first >= 0,
    ensures
        super::page::object_block(sizes, first, b) matches Some(c) ==> first <= c <= b,
    decreases b - first + 1,
{
    if b >= first && sizes[b] == 0 {
        lemma_object_block(sizes, first, b - 1);
    }
}

/// Growing marks keep what has been scanned.
proof fn lemma_scanned_grows(
    before: &GarbageCollector,
    after: &GarbageCollector,
    memory: Seq<Vec<u64>>,
    id: int,
    b: int,
    n: int,
)
    requires
        before.wf(),
        marks_ready(before),
        only_marks(before, after),
        0 <= id < before.headers@.len(),
        scanned_to(before, memory, id, b, n),
    ensures
        scanned_to(after, memory, id, b, n),
        object_words(after.headers@[id]@, b) == object_words(before.headers@[id]@, b),
{
    lemma_only_marks(before, after);
    let v = before.headers@[id]@;
    let u = after.headers@[id]@;
    assert(u == (PageView { bmp: u.bmp, ..v }));
    assert forall|w: int| 0 <= w < n implies (target(
        after@.pages,
        after.map@,
        #[trigger] object_word(memory, u, id, b, w),
    ) matches Some((i, c)) ==> is_marked(after, i, c)) by {
        let p = object_word(memory, v, id, b, w);
        assert(p == object_word(memory, u, id, b, w));
        if let Some((i, c)) = target(before@.pages, before.map@, p) {
            lemma_target(before, p);
            assert(is_marked(before, i, c));
        }
    }
}

/// Following a word keeps the stack in order.
proof fn lemma_word_stack(before: &GarbageCollector, after: &GarbageCollector, p: u64)
    requires
        before.wf(),
        marks_ready(before),
        only_marks(before, after),
        word_marked(before, after, p),
        stack_ok(before),
    ensures
        stack_ok(after),
{
    lemma_only_marks(before, after);
    let t = target(before@.pages, before.map@, p);
    if t is Some {
        let (ti, tb) = t->0;
        lemma_target_block(before, p);
        assert(target(after@.pages, after.map@, p) == t);
        lemma_target_block(after, p);
        lemma_block_start(after, ti, tb);
        lemma_block_start(before, ti, tb);
        assert forall|k: int| 0 <= k < after.mark_stack@.len() implies stack_entry_ok(
            after,
            #[trigger] after.mark_stack@[k],
        ) by {
            if k < before.mark_stack@.len() {
                assert(stack_entry_ok(before, before.mark_stack@[k]));
                let a = after.mark_stack@[k];
                let id = page_in(before.map@, a)->0 as int;
                assert(after.headers@[id]@ == (PageView {
                    bmp: after.headers@[id]@.bmp,
                    ..before.headers@[id]@
                }));
                assert(leads_well(after, a, id));
            }
        }
    }
}

/// Following a word keeps every marked object seen to, but for one that is being
/// scanned.
proof fn lemma_word_seen_to(
    before: &GarbageCollector,
    after: &GarbageCollector,
    memory: Seq<Vec<u64>>,
    p: u64,
    id0: int,
    b0: int,
)
    requires
        before.wf(),
        marks_ready(before),
        only_marks(before, after),
        word_marked(before, after, p),
        stack_ok(before),
        forall|id: int, b: int| (id, b) != (id0, b0) ==> #[trigger] seen_to(before, memory, id, b),
    ensures
        stack_ok(after),
        forall|id: int, b: int| (id, b) != (id0, b0) ==> #[trigger] seen_to(after, memory, id, b),
{
    lemma_only_marks(before, after);
    let t = target(before@.pages, before.map@, p);
    if t is Some {
        let (ti, tb) = t->0;
        lemma_target_block(before, p);
        assert(target(after@.pages, after.map@, p) == t);
        lemma_target_block(after, p);
        lemma_block_start(after, ti, tb);
        lemma_block_start(before, ti, tb);
        lemma_word_stack(before, after, p);
        assert forall|id: int, b: int| (id, b) != (id0, b0) implies #[trigger] seen_to(
            after,
            memory,
            id,
            b,
        ) by {
            if is_block(after, id, b) && is_marked(after, id, b) && has_ptr(
                after.headers@[id].page_kind,
            ) {
                let u = after.headers@[id]@;
                let v = before.headers@[id]@;
                assert(u == (PageView { bmp: u.bmp, ..v }));
                lemma_block_start(after, id, b);
                let a = object_start(u, b);
                assert(page_in(before.map@, a) == Some(id as usize));
                assert(leads_well(before, a, id));
                assert(is_block(before, id, b));
                assert(seen_to(before, memory, id, b));
                if is_marked(before, id, b) {
                    if scanned(before, memory, id, b) {
                        lemma_scanned_grows(
                            before,
                            after,
                            memory,
                            id,
                            b,
                            object_words(v, b),
                        );
                    } else {
                        assert(before.mark_stack@.contains(object_start(v, b)));
                        let k = before.mark_stack@.index_of(object_start(v, b));
                        assert(after.mark_stack@[k] == object_start(v, b));
                    }
                } else {
                    if id != ti {
                        assert(after.headers@[id] == before.headers@[id]);
                    }
                    assert((id, b) == (ti, tb));
                    assert(after.mark_stack@.last() == object_start(u, b));
                }
            }
        }
    }
}

/// The number of a place among all places.
spec fn place_key(id: int, b: int) -> int {
    id * 0x1_0000_0000 + b
}

impl GarbageCollector {
    /// Scans the objects on the stack, and those that they lead to.
    pub fn flush_mark(&mut self, memory: &Vec<Vec<u64>>)
        requires
            old(self).wf(),
            marks_ready(old(self)),
            stack_ok(old(self)),
            memory_ok(old(self), memory@),
            all_seen_to(old(self), memory@),
        ensures
            final(self).wf(),
            marks_ready(final(self)),
            only_marks(old(self), final(self)),
            final(self).mark_stack@ == Seq::<u64>::empty(),
            all_seen_to(final(self), memory@),
            forall|s: Set<(int, int)>| #[trigger]
                closed_under(old(self), memory@, s) && within(old(self), s) ==> within(
                    final(self),
                    s,
                ),
    {
        let ghost before = *self;
        let ghost universe = vstd::set_lib::set_int_range(0, self.headers@.len() as int * 0x1_0000_0000);
        let ghost mut found: Set<int> = Set::empty();
        proof {
            lemma_only_marks_refl(self);
            vstd::set_lib::lemma_int_range(0, self.headers@.len() as int * 0x1_0000_0000);
        }
        while self.mark_stack.len() > 0
            invariant
                before.wf(),
                marks_ready(&before),
                self.wf(),
                marks_ready(self),
                only_marks(&before, self),
                stack_ok(self),
                memory_ok(self, memory@),
                all_seen_to(self, memory@),
                universe == vstd::set_lib::set_int_range(
                    0,
                    before.headers@.len() as int * 0x1_0000_0000,
                ),
                universe.finite(),
                found.finite(),
                found.subset_of(universe),
                found.len() <= universe.len(),
                forall|id: int, b: int|
                    is_block(self, id, b) && #[trigger] found.contains(place_key(id, b))
                        ==> is_marked(self, id, b),
                forall|s: Set<(int, int)>| #[trigger]
                    closed_under(&before, memory@, s) && within(&before, s) ==> within(self, s),
            decreases universe.len() - found.len(), self.mark_stack@.len(),
        {
            let ghost top = *self;
            let ghost found0 = found;
            let n: usize = self.mark_stack.len();
            let block: u64 = self.mark_stack[n - 1];
            assert(stack_entry_ok(self, self.mark_stack@[n - 1]));
            let popped: Option<u64> = self.mark_stack.pop();
            let id: usize = match self.map.get_page(block) {
                Some(id) => id,
                None => {
                    assert(false);
                    return ;
                },
            };
            let base: u64 = self.headers[id].base;
            let ghost v = self.headers@[id as int]@;
            let ghost b = (block - base) / (v.block_size as int);
            proof {
                let d = block - base;
                vstd::arithmetic::div_mod::lemma_fundamental_div_mod(d, v.block_size);
                assert(b * v.block_size == d) by (nonlinear_arith)
                    requires
                        d == v.block_size * b + 0,
                ;
                vstd::arithmetic::div_mod::lemma_div_pos_is_pos(d, v.block_size);
                assert(is_block(self, id as int, b));
                assert(d / (v.block_size as int) <= (v.page_size - 1) / (v.block_size as int)) by {
                    vstd::arithmetic::div_mod::lemma_div_is_ordered(
                        d,
                        v.page_size - 1,
                        v.block_size,
                    );
                }
            }
            let bytes: usize = self.headers[id].fast_block_size(block);
            let offset: usize = (block - base) as usize;
            let room: usize = self.headers[id].page_size - offset;
            let nwords: usize = if bytes < room {
                bytes / 8
            } else {
                room / 8
            };
            assert(nwords == object_words(v, b));
            let ghost start = *self;
            proof {
                lemma_popped(&top, self, memory@, id as int, b);
                assert forall|s: Set<(int, int)>| #[trigger]
                    closed_under(&before, memory@, s) && within(&before, s) implies within(self, s)
                    && s.contains((id as int, b)) && has_ptr(v.page_kind) by {
                    assert(within(&top, s));
                    assert(entry_within(&top, top.mark_stack@[n - 1], s));
                    assert forall|i: int, c: int|
                        is_block(self, i, c) && #[trigger] is_marked(self, i, c) implies s.contains(
                        (i, c),
                    ) by {
                        assert(page_ready(&top, i));
                        assert(is_marked(&top, i, c));
                    }
                    assert forall|k: int| 0 <= k < self.mark_stack@.len() implies entry_within(
                        self,
                        #[trigger] self.mark_stack@[k],
                        s,
                    ) by {
                        assert(entry_within(&top, top.mark_stack@[k], s));
                    }
                }
            }
            let mut pos: usize = 0;
            while pos < nwords
                invariant
                    start.wf(),
                    marks_ready(&start),
                    is_block(&start, id as int, b),
                    v == start.headers@[id as int]@,
                    before.wf(),
                    marks_ready(&before),
                    only_marks(&before, self),
                    only_marks(&start, self),
                    self.wf(),
                    marks_ready(self),
                    stack_ok(self),
                    memory_ok(self, memory@),
                    pos <= nwords,
                    nwords == object_words(v, b),
                    nwords * 8 <= room,
                    offset + room == v.page_size,
                    offset == b * v.block_size,
                    v.block_size % 8 == 0,
                    id < memory@.len(),
                    scanned_to(self, memory@, id as int, b, pos as int),
                    forall|i: int, c: int|
                        (i, c) != (id as int, b) ==> #[trigger] seen_to(self, memory@, i, c),
                    universe == vstd::set_lib::set_int_range(
                        0,
                        before.headers@.len() as int * 0x1_0000_0000,
                    ),
                    universe.finite(),
                    found.finite(),
                    found.subset_of(universe),
                    found.len() <= universe.len(),
                    found.len() > found0.len() || (found == found0 && self.mark_stack@.len()
                        < top.mark_stack@.len()),
                    forall|i: int, c: int|
                        is_block(self, i, c) && #[trigger] found.contains(place_key(i, c))
                            ==> is_marked(self, i, c),
                    forall|s: Set<(int, int)>| #[trigger]
                        closed_under(&before, memory@, s) && within(&before, s) ==> within(self, s)
                            && s.contains((id as int, b)) && has_ptr(v.page_kind),
                decreases nwords - pos,
            {
                let ghost prev = *self;
                proof {
                    assert(memory@[id as int]@.len() * 8 >= self.headers@[id as int].page_size);
                    assert(self.headers@[id as int]@ == (PageView {
                        bmp: self.headers@[id as int]@.bmp,
                        ..v
                    }));
                    assert(offset / 8 + pos < memory@[id as int]@.len());
                }
                let p: u64 = memory[id][offset / 8 + pos];
                self.mark_word(p);
                proof {
                    assert(p == object_word(memory@, prev.headers@[id as int]@, id as int, b, pos as int));
                    assert forall|s: Set<(int, int)>| #[trigger]
                        closed_under(&before, memory@, s) && within(&before, s) implies within(
                        self,
                        s,
                    ) by {
                        lemma_closed_kept(&before, &prev, memory@, s);
                        lemma_object_in(&start, &prev, memory@, s, id as int, b, pos as int);
                        lemma_word_within(&prev, self, p, s);
                    }
                    lemma_only_marks(&prev, self);
                    lemma_only_marks_trans(&before, &prev, self);
                    lemma_only_marks_trans(&start, &prev, self);
                    lemma_word_seen_to(&prev, self, memory@, p, id as int, b);
                    lemma_scanned_grows(&prev, self, memory@, id as int, b, pos as int);
                    assert(scanned_to(self, memory@, id as int, b, pos + 1)) by {
                        assert forall|w: int| 0 <= w < pos + 1 implies (target(
                            self@.pages,
                            self.map@,
                            #[trigger] object_word(
                                memory@,
                                self.headers@[id as int]@,
                                id as int,
                                b,
                                w,
                            ),
                        ) matches Some((i, c)) ==> is_marked(self, i, c)) by {
                            if w == pos {
                                assert(object_word(
                                    memory@,
                                    self.headers@[id as int]@,
                                    id as int,
                                    b,
                                    w,
                                ) == p);
                                assert(target(self@.pages, self.map@, p) == target(
                                    prev@.pages,
                                    prev.map@,
                                    p,
                                ));
                            }
                        }
                    }
                    if let Some((ti, tb)) = target(prev@.pages, prev.map@, p) {
                        lemma_target_block(&prev, p);
                        lemma_key_range(&prev, ti, tb);
                        if !is_marked(&prev, ti, tb) {
                            let key = place_key(ti, tb);
                            assert(!found.contains(key));
                            let more = found.insert(key);
                            assert(universe.contains(key));
                            vstd::set_lib::lemma_len_subset(more, universe);
                            assert forall|i: int, c: int|
                                is_block(self, i, c) && #[trigger] more.contains(place_key(i, c))
                                    implies is_marked(self, i, c) by {
                                lemma_key_range(self, i, c);
                                lemma_blocks_same(&prev, self, i, c);
                                if place_key(i, c) == key {
                                    assert(i == ti && c == tb);
                                    assert(is_marked(self, ti, tb));
                                } else {
                                    assert(found.contains(place_key(i, c)));
                                    assert(is_marked(&prev, i, c));
                                }
                            }
                            found = more;
                        } else {
                            lemma_found_kept(&prev, self, found);
                        }
                    }
                }
                pos = pos + 1;
            }
            proof {
                assert forall|i: int, c: int| #[trigger] seen_to(self, memory@, i, c) by {
                    if (i, c) == (id as int, b) {
                        lemma_scanned_grows(self, self, memory@, id as int, b, pos as int);
                        assert(self.headers@[id as int]@ == (PageView {
                            bmp: self.headers@[id as int]@.bmp,
                            ..v
                        }));
                        assert(scanned(self, memory@, i, c));
                    }
                }
            }
        }
        assert(self.mark_stack@ =~= Seq::<u64>::empty());
    }
}

/// A set that is closed after marks have grown was closed before.
proof fn lemma_closed_back(
    before: &GarbageCollector,
    after: &GarbageCollector,
    memory: Seq<Vec<u64>>,
    s: Set<(int, int)>,
)
    requires
        before.wf(),
        marks_ready(before),
        after.wf(),
        only_marks(before, after),
        closed_under(after, memory, s),
    ensures
        closed_under(before, memory, s),
{
    lemma_only_marks(before, after);
    assert forall|id: int, b: int, w: int|
        s.contains((id, b)) && is_block(before, id, b) && has_ptr(before.headers@[id].page_kind)
            && 0 <= w < object_words(before.headers@[id]@, b) implies (target(
        before@.pages,
        before.map@,
        #[trigger] object_word(memory, before.headers@[id]@, id, b, w),
    ) matches Some(t) ==> s.contains(t)) by {
        lemma_object_in(before, after, memory, s, id, b, w);
        let u = after.headers@[id]@;
        let v = before.headers@[id]@;
        assert(u == (PageView { bmp: u.bmp, ..v }));
        let p = object_word(memory, v, id, b, w);
        assert(p == object_word(memory, u, id, b, w));
        assert(target(after@.pages, after.map@, p) == target(before@.pages, before.map@, p));
    }
}

/// What a word of an object in a closed set points into lies in the set.
proof fn lemma_object_in(
    before: &GarbageCollector,
    gc: &GarbageCollector,
    memory: Seq<Vec<u64>>,
    s: Set<(int, int)>,
    id: int,
    b: int,
    w: int,
)
    requires
        before.wf(),
        marks_ready(before),
        gc.wf(),
        only_marks(before, gc),
        closed_under(gc, memory, s),
        s.contains((id, b)),
        is_block(before, id, b),
        has_ptr(before.headers@[id]@.page_kind),
        0 <= w < object_words(before.headers@[id]@, b),
    ensures
        target(
            gc@.pages,
            gc.map@,
            object_word(memory, gc.headers@[id]@, id, b, w),
        ) matches Some(t) ==> s.contains(t),
{
    lemma_only_marks(before, gc);
    lemma_block_start(before, id, b);
    assert(before.headers@.len() == before.headers.len());
    let u = gc.headers@[id]@;
    let v = before.headers@[id]@;
    assert(u == (PageView { bmp: u.bmp, ..v }));
    let a = object_start(v, b);
    assert(page_in(gc.map@, a) == Some(id as usize));
    assert(leads_well(gc, a, id));
    assert(is_block(gc, id, b));
}

/// Taking an address off the stack leaves only its block to be seen to.
proof fn lemma_popped(
    before: &GarbageCollector,
    after: &GarbageCollector,
    memory: Seq<Vec<u64>>,
    id0: int,
    b0: int,
)
    requires
        before.wf(),
        stack_ok(before),
        all_seen_to(before, memory),
        before.mark_stack@.len() > 0,
        after.headers == before.headers,
        after.map == before.map,
        after.mark_stack@ == before.mark_stack@.drop_last(),
        is_block(before, id0, b0),
        before.mark_stack@.last() == object_start(before.headers@[id0]@, b0),
        after@.pages == before@.pages,
    ensures
        stack_ok(after),
        forall|id: int, b: int| (id, b) != (id0, b0) ==> #[trigger] seen_to(after, memory, id, b),
{
    lemma_block_start(before, id0, b0);
    assert forall|k: int| 0 <= k < after.mark_stack@.len() implies stack_entry_ok(
        after,
        #[trigger] after.mark_stack@[k],
    ) by {
        assert(stack_entry_ok(before, before.mark_stack@[k]));
        let id = page_in(before.map@, before.mark_stack@[k])->0 as int;
        assert(page_ready(before, id));
        assert(page_ready(after, id));
    }
    assert forall|id: int, b: int| (id, b) != (id0, b0) implies #[trigger] seen_to(
        after,
        memory,
        id,
        b,
    ) by {
        assert(seen_to(before, memory, id, b));
        if is_block(after, id, b) && is_marked(after, id, b) && has_ptr(
            after.headers@[id].page_kind,
        ) {
            assert(page_ready(before, id));
            assert(is_block(before, id, b));
            lemma_block_start(before, id, b);
            assert(before.headers@.len() == before.headers.len());
            let a = object_start(before.headers@[id]@, b);
            if scanned(before, memory, id, b) {
                assert forall|w: int| 0 <= w < object_words(after.headers@[id]@, b) implies (target(
                    after@.pages,
                    after.map@,
                    #[trigger] object_word(memory, after.headers@[id]@, id, b, w),
                ) matches Some((i, c)) ==> is_marked(after, i, c)) by {
                    let p = object_word(memory, before.headers@[id]@, id, b, w);
                    if let Some((i, c)) = target(before@.pages, before.map@, p) {
                        assert(is_marked(before, i, c));
                    }
                }
            } else {
                let k = before.mark_stack@.index_of(a);
                assert(a != before.mark_stack@.last());
                assert(after.mark_stack@[k] == a);
            }
        }
    }
}

/// The number of a block is in range, and no other block has it.
proof fn lemma_key_range(gc: &GarbageCollector, id: int, b: int)
    requires
        gc.wf(),
        is_block(gc, id, b),
    ensures
        0 <= place_key(id, b) < gc.headers@.len() as int * 0x1_0000_0000,
        0 <= b < 0x1_0000_0000,
{
    let h = gc.headers@[id];
    let n = h.alloc.block_size as int;
    assert(b <= b * n) by (nonlinear_arith)
        requires
            b >= 0,
            n >= 1,
    ;
}

proof fn lemma_blocks_same(before: &GarbageCollector, after: &GarbageCollector, id: int, b: int)
    requires
        before.wf(),
        marks_ready(before),
        only_marks(before, after),
        is_block(after, id, b),
        after.wf(),
    ensures
        is_block(before, id, b),
{
    let u = after.headers@[id]@;
    let v = before.headers@[id]@;
    assert(u == (PageView { bmp: u.bmp, ..v }));
    lemma_block_start(after, id, b);
    let a = object_start(u, b);
    assert(page_in(before.map@, a) == Some(id as usize));
    assert(leads_well(before, a, id));
}

proof fn lemma_found_kept(before: &GarbageCollector, after: &GarbageCollector, found: Set<int>)
    requires
        before.wf(),
        marks_ready(before),
        only_marks(before, after),
        after.wf(),
        forall|i: int, c: int|
            is_block(before, i, c) && #[trigger] found.contains(place_key(i, c)) ==> is_marked(
                before,
                i,
                c,
            ),
    ensures
        forall|i: int, c: int|
            is_block(after, i, c) && #[trigger] found.contains(place_key(i, c)) ==> is_marked(
                after,
                i,
                c,
            ),
{
    lemma_only_marks(before, after);
    assert forall|i: int, c: int|
        is_block(after, i, c) && #[trigger] found.contains(place_key(i, c)) implies is_marked(
        after,
        i,
        c,
    ) by {
        lemma_blocks_same(before, after, i, c);
        assert(is_marked(before, i, c));
    }
}

/// Whether every word leads to a page that can be marked once its bits are cleared, or
/// to none: as before, but for the bits, and the page is in a list.
pub open spec fn pages_ready(gc: &GarbageCollector) -> bool {
    forall|p: u64|
        (#[trigger] page_in(gc.map@, p)) is Some ==> page_prepared(
            gc,
            p,
            page_in(gc.map@, p)->0 as int,
        )
}

/// Whether a page is in one of the first `n` lists.
pub open spec fn in_lists(lists: Seq<Seq<usize>>, n: int, id: int) -> bool {
    exists|pid: int, k: int|
        0 <= pid < n && 0 <= k < lists[pid].len() && #[trigger] lists[pid][k] == id
}

pub open spec fn page_prepared(gc: &GarbageCollector, p: u64, id: int) -> bool {
    let h = gc.headers@[id];
    &&& 0 <= id < gc.headers@.len()
    &&& h.base <= p < h.base + h.page_size ==> {
        &&& in_lists(gc@.lists, GC_ALL_PAGES as int, id)
        &&& h.alloc.block_size > 0
        &&& h.alloc.block_size % 8 == 0
        &&& 255 * h.alloc.block_size <= usize::MAX
        &&& (h.page_size - 1) / (h.alloc.block_size as int) < 8 * ((h.alloc.max_blocks + 7)
            / 8)
        &&& h.alloc.sizes is Some ==> (h.page_size - 1) / (h.alloc.block_size as int)
            < h.alloc.max_blocks
        &&& h.base % 8 == 0
        &&& forall|q: u64|
            h.base <= q < h.base + h.page_size ==> #[trigger] page_in(gc.map@, q) == Some(
                id as usize,
            )
    }
}

/// Clearing the bits of a list changes nothing else, and clears those of its pages.
proof fn lemma_list_unmarked(pages: Seq<PageView>, list: Seq<usize>, k: int)
    requires
        0 <= k <= list.len(),
        forall|j: int| 0 <= j < list.len() ==> (#[trigger] list[j]) < pages.len(),
    ensures
        list_unmarked(pages, list, k).len() == pages.len(),
        forall|i: int|
            0 <= i < pages.len() ==> (#[trigger] list_unmarked(pages, list, k)[i]) == pages[i]
                || list_unmarked(pages, list, k)[i] == unmarked(pages[i]),
        forall|j: int|
            list.len() - k <= j < list.len() ==> list_unmarked(pages, list, k)[(
            #[trigger] list[j]) as int] == unmarked(pages[list[j] as int]),
    decreases k,
{
    if k > 0 {
        lemma_list_unmarked(pages, list, k - 1);
        let rest = list_unmarked(pages, list, k - 1);
        let id = list[list.len() - k] as int;
        assert forall|j: int| list.len() - k <= j < list.len() implies list_unmarked(
            pages,
            list,
            k,
        )[(#[trigger] list[j]) as int] == unmarked(pages[list[j] as int]) by {
            if list[j] != id {
                assert(j > list.len() - k);
            } else {
                assert(unmarked(unmarked(pages[id])) == unmarked(pages[id]));
            }
        }
    }
}

proof fn lemma_all_unmarked(g: GcView, n: int)
    requires
        0 <= n <= g.lists.len(),
        g.free.len() == g.lists.len(),
        forall|pid: int, j: int|
            0 <= pid < g.lists.len() && 0 <= j < g.lists[pid].len() ==> (
            #[trigger] g.lists[pid][j]) < g.pages.len(),
    ensures
        all_unmarked(g, n).pages.len() == g.pages.len(),
        all_unmarked(g, n).lists == g.lists,
        all_unmarked(g, n).table == g.table,
        forall|i: int|
            0 <= i < g.pages.len() ==> (#[trigger] all_unmarked(g, n).pages[i]) == g.pages[i]
                || all_unmarked(g, n).pages[i] == unmarked(g.pages[i]),
        forall|i: int|
            0 <= i < g.pages.len() && in_lists(g.lists, n, i) ==> (
            #[trigger] all_unmarked(g, n).pages[i]) == unmarked(g.pages[i]),
    decreases n,
{
    if n > 0 {
        lemma_all_unmarked(g, n - 1);
        let rest = all_unmarked(g, n - 1);
        let list = g.lists[n - 1];
        assert forall|j: int| 0 <= j < list.len() implies (#[trigger] list[j])
            < rest.pages.len() by {
            assert(g.lists[n - 1][j] < g.pages.len());
        }
        lemma_list_unmarked(rest.pages, list, list.len() as int);
        let next = all_unmarked(g, n);
        assert forall|i: int| 0 <= i < g.pages.len() implies (#[trigger] next.pages[i])
            == g.pages[i] || next.pages[i] == unmarked(g.pages[i]) by {
            assert(rest.pages[i] == g.pages[i] || rest.pages[i] == unmarked(g.pages[i]));
            assert(unmarked(unmarked(g.pages[i])) == unmarked(g.pages[i]));
        }
        assert forall|i: int| 0 <= i < g.pages.len() && in_lists(g.lists, n, i) implies (
        #[trigger] next.pages[i]) == unmarked(g.pages[i]) by {
            let (pid, k) = choose|pid: int, k: int|
                0 <= pid < n && 0 <= k < g.lists[pid].len() && #[trigger] g.lists[pid][k] == i;
            assert(unmarked(unmarked(g.pages[i])) == unmarked(g.pages[i]));
            if pid == n - 1 {
                assert(list[k] == i);
                assert(rest.pages[i] == g.pages[i] || rest.pages[i] == unmarked(g.pages[i]));
            } else {
                assert(in_lists(g.lists, n - 1, i));
                assert(rest.pages[i] == unmarked(g.pages[i]));
            }
        }
    }
}

/// On a page on which nothing is marked, as far as its cells tell, no block is marked.
pub proof fn lemma_dead_page(v: PageView, b: int)
    requires
        page_dead(v),
        0 <= v.first_block <= b < v.max_blocks,
        8 * v.bmp->0.len() >= v.max_blocks,
    ensures
        !set_slots(v.bmp->0).contains(b),
{
    assert(v.bmp->0[b / 8] == 0);
    crate::bits::lemma_zero_bits8((b % 8) as u8);
}

impl GarbageCollector {
    /// Marks what the roots and the stacks lead to, and removes the pages on which
    /// nothing is marked. The result are those pages.
    pub fn mark(
        &mut self,
        roots: &Vec<u64>,
        stacks: &Vec<Vec<u64>>,
        memory: &Vec<Vec<u64>>,
    ) -> (r: Vec<usize>)
        requires
            old(self).wf(),
            pages_ready(old(self)),
            memory_ok(old(self), memory@),
            old(self).mark_stack@.len() == 0,
        ensures
            final(self).wf(),
            final(self).mark_stack@.len() == 0,
            final(self).mark_size == old(self).mark_size,
            final(self).extra_pages == old(self).extra_pages,
            final(self).base_addr == old(self).base_addr,
            final(self).recursions == old(self).recursions,
            final(self)@.spare == old(self)@.spare + r@,
            in_order(old(self)@) ==> in_order(final(self)@) && pages_ready(final(self)),
            exists|done: GarbageCollector|
                {
                    &&& #[trigger] all_seen_to(&done, memory@)
                    &&& marked_anew(old(self), &done)
                    &&& done.mark_stack@.len() == 0
                    &&& forall|p: u64| #[trigger]
                        target(done@.pages, done.map@, p) == target(
                            old(self)@.pages,
                            old(self).map@,
                            p,
                        )
                    &&& forall|k: int|
                        0 <= k < roots@.len() ==> points_to_marked(&done, #[trigger] roots@[k])
                    &&& forall|s: int, k: int|
                        0 <= s < stacks@.len() && 0 <= k < stacks@[s]@.len() ==> points_to_marked(
                            &done,
                            #[trigger] stacks@[s]@[k],
                        )
                    &&& forall|s: Set<(int, int)>| #[trigger]
                        closed_under(&done, memory@, s) && words_in(&done, roots@, s)
                            && all_words_in(&done, stacks@, stacks@.len() as int, s) ==> within(
                            &done,
                            s,
                        )
                    &&& final(self)@ == all_dead_removed(done@, GC_ALL_PAGES as int)
                },
    {
        let ghost before = *self;
        self.before_mark();
        let ghost clear = *self;
        proof {
            lemma_cleared(&before, self, memory@);
            lemma_only_marks_refl(self);
        }
        self.mark_words(roots);
        let ghost rooted = *self;
        proof {
            lemma_points_kept(&clear, self);
            assert forall|set: Set<(int, int)>| #[trigger]
                words_in(&clear, roots@, set) implies within(self, set) by {
                assert(within(&clear, set));
            }
        }
        let mut s: usize = 0;
        while s < stacks.len()
            invariant
                s <= stacks@.len(),
                clear.wf(),
                marks_ready(&clear),
                only_marks(&clear, self),
                self.wf(),
                marks_ready(self),
                stack_ok(self),
                all_seen_to(self, memory@),
                forall|k: int|
                    0 <= k < roots@.len() ==> points_to_marked(self, #[trigger] roots@[k]),
                forall|t: int, k: int|
                    0 <= t < s && 0 <= k < stacks@[t]@.len() ==> points_to_marked(
                        self,
                        #[trigger] stacks@[t]@[k],
                    ),
                forall|set: Set<(int, int)>| #[trigger]
                    words_in(&clear, roots@, set) && all_words_in(&clear, stacks@, s as int, set)
                        ==> within(self, set),
            decreases stacks@.len() - s,
        {
            let ghost prev = *self;
            self.mark_words(&stacks[s]);
            proof {
                lemma_only_marks_trans(&clear, &prev, self);
                lemma_points_kept(&prev, self);
                lemma_only_marks(&prev, self);
                lemma_only_marks(&clear, &prev);
                assert forall|set: Set<(int, int)>| #[trigger]
                    words_in(&clear, roots@, set) && all_words_in(&clear, stacks@, s + 1, set)
                    implies within(self, set) by {
                    assert(all_words_in(&clear, stacks@, s as int, set));
                    assert(within(&prev, set));
                    assert(words_in(&clear, stacks@[s as int]@, set));
                    assert(words_in(&prev, stacks@[s as int]@, set));
                }
                assert forall|t: int, k: int|
                    0 <= t < s + 1 && 0 <= k < stacks@[t]@.len() implies points_to_marked(
                    self,
                    #[trigger] stacks@[t]@[k],
                ) by {
                    let p = stacks@[t]@[k];
                    if t < s {
                        assert(points_to_marked(&prev, p));
                    } else {
                        assert(target(prev@.pages, prev.map@, p) == target(
                            self@.pages,
                            self.map@,
                            p,
                        ));
                    }
                }
            }
            s = s + 1;
        }
        let ghost prev = *self;
        proof {
            assert(memory_ok(self, memory@)) by {
                assert forall|id: int| 0 <= id < memory@.len() implies 8 * (
                #[trigger] memory@[id])@.len() >= self.headers@[id].page_size by {
                    assert(self.headers@[id]@ == (PageView {
                        bmp: self.headers@[id]@.bmp,
                        ..clear.headers@[id]@
                    }));
                    assert(clear@.pages[id].page_size == before@.pages[id].page_size);
                }
            }
        }
        self.flush_mark(memory);
        let ghost done = *self;
        proof {
            lemma_points_kept(&prev, self);
            lemma_only_marks(&prev, self);
            assert forall|set: Set<(int, int)>| #[trigger]
                closed_under(&done, memory@, set) && words_in(&done, roots@, set) && all_words_in(
                    &done,
                    stacks@,
                    stacks@.len() as int,
                    set,
                ) implies within(&done, set) by {
                lemma_closed_back(&prev, &done, memory@, set);
                lemma_only_marks(&clear, &prev);
                assert(words_in(&clear, roots@, set));
                assert forall|t: int| 0 <= t < stacks@.len() implies words_in(
                    &clear,
                    (#[trigger] stacks@[t])@,
                    set,
                ) by {
                    assert(words_in(&done, stacks@[t]@, set));
                }
                assert(all_words_in(&clear, stacks@, stacks@.len() as int, set));
                assert(within(&prev, set));
            }
            lemma_only_marks_trans(&clear, &prev, self);
            lemma_only_marks(&clear, self);
        }
        let gone: Vec<usize> = self.flush_empty_pages();
        proof {
            assert(all_seen_to(&done, memory@));
            assert(only_marks(&clear, &done));
            assert(marked_anew(&before, &done));
            if in_order(before@) {
                lemma_marked_order(&before, &clear, &done);
                lemma_all_dead_removed_order(done@, GC_ALL_PAGES as int);
                lemma_order_ready(self);
            }
            assert(done@.spare == before@.spare);
        }
        gone
    }
}

/// Whether all marks have been cleared and then only marks have been set.
pub open spec fn marked_anew(before: &GarbageCollector, done: &GarbageCollector) -> bool {
    exists|clear: GarbageCollector| #[trigger]
        only_marks(&clear, done) && clear@ == all_unmarked(before@, GC_ALL_PAGES as int)
}

/// Clearing marks and setting them anew keeps the order.
proof fn lemma_marked_order(
    before: &GarbageCollector,
    clear: &GarbageCollector,
    done: &GarbageCollector,
)
    requires
        before.wf(),
        in_order(before@),
        clear@ == all_unmarked(before@, GC_ALL_PAGES as int),
        only_marks(clear, done),
    ensures
        in_order(done@),
{
    let n = GC_ALL_PAGES as int;
    assert forall|pid: int, j: int|
        0 <= pid < before@.lists.len() && 0 <= j < before@.lists[pid].len() implies (
    #[trigger] before@.lists[pid][j]) < before@.pages.len() by {
        assert(before.gc_pages@[pid]@[j] < before.headers@.len());
    }
    lemma_all_unmarked(before@, n);
    lemma_spare_kept(before@, n);
    assert forall|i: int| 0 <= i < before@.pages.len() implies same_page(
        before@.pages[i],
        #[trigger] done@.pages[i],
    ) by {
        assert(all_unmarked(before@, n).pages[i] == clear@.pages[i]);
        assert(clear@.pages[i] == clear.headers@[i]@);
        assert(done@.pages[i] == done.headers@[i]@);
        assert(clear@.pages[i] == before@.pages[i] || clear@.pages[i] == unmarked(before@.pages[i]));
    }
    assert(done@.lists =~~= clear@.lists);
    assert(done@.spare == clear@.spare);
    lemma_order_kept(before@, done@);
}

/// Whether what the words of the first `n` stacks point into lies in a set.
pub open spec fn all_words_in(
    gc: &GarbageCollector,
    stacks: Seq<Vec<u64>>,
    n: int,
    s: Set<(int, int)>,
) -> bool {
    forall|t: int| 0 <= t < n ==> words_in(gc, (#[trigger] stacks[t])@, s)
}

/// Whether a word points into a marked object or nowhere.
pub open spec fn points_to_marked(gc: &GarbageCollector, p: u64) -> bool {
    target(gc@.pages, gc.map@, p) matches Some((id, b)) ==> is_marked(gc, id, b)
}

proof fn lemma_points_kept(before: &GarbageCollector, after: &GarbageCollector)
    requires
        before.wf(),
        marks_ready(before),
        only_marks(before, after),
    ensures
        forall|p: u64| points_to_marked(before, p) ==> #[trigger] points_to_marked(after, p),
{
    lemma_only_marks(before, after);
    assert forall|p: u64| points_to_marked(before, p) implies #[trigger] points_to_marked(
        after,
        p,
    ) by {
        assert(target(after@.pages, after.map@, p) == target(before@.pages, before.map@, p));
        if let Some((id, b)) = target(before@.pages, before.map@, p) {
            lemma_target(before, p);
        }
    }
}

/// After the bits have been cleared, marking can start.
proof fn lemma_cleared(before: &GarbageCollector, after: &GarbageCollector, memory: Seq<Vec<u64>>)
    requires
        before.wf(),
        after.wf(),
        pages_ready(before),
        memory_ok(before, memory),
        before.mark_stack@.len() == 0,
        after.mark_stack == before.mark_stack,
        after@ == all_unmarked(before@, GC_ALL_PAGES as int),
    ensures
        marks_ready(after),
        stack_ok(after),
        all_seen_to(after, memory),
        memory_ok(after, memory),
        forall|id: int, b: int| is_block(after, id, b) ==> !#[trigger] is_marked(after, id, b),
        after@.spare == before@.spare,
        forall|p: u64| #[trigger]
            target(after@.pages, after.map@, p) == target(before@.pages, before.map@, p),
        after@.pages.len() == before@.pages.len(),
        forall|i: int|
            0 <= i < before@.pages.len() ==> (#[trigger] after@.pages[i]).page_size
                == before@.pages[i].page_size,
{
    let n = GC_ALL_PAGES as int;
    assert forall|pid: int, j: int|
        0 <= pid < before@.lists.len() && 0 <= j < before@.lists[pid].len() implies (
    #[trigger] before@.lists[pid][j]) < before@.pages.len() by {
        assert(before.gc_pages@[pid]@[j] < before.headers@.len());
    }
    lemma_all_unmarked(before@, n);
    lemma_spare_kept(before@, n);
    assert forall|i: int| 0 <= i < before@.pages.len() implies (#[trigger] after@.pages[i]).page_size
        == before@.pages[i].page_size by {
        assert(all_unmarked(before@, n).pages[i] == after@.pages[i]);
    }
    assert forall|p: u64| #[trigger] target(after@.pages, after.map@, p) == target(
        before@.pages,
        before.map@,
        p,
    ) by {
        if let Some(id) = page_in(before.map@, p) {
            assert(page_prepared(before, p, id as int));
            assert(all_unmarked(before@, n).pages[id as int] == after@.pages[id as int]);
        }
    }
    assert forall|p: u64| (#[trigger] page_in(after.map@, p)) is Some implies leads_well(
        after,
        p,
        page_in(after.map@, p)->0 as int,
    ) by {
        let id = page_in(after.map@, p)->0 as int;
        assert(page_in(before.map@, p) is Some);
        assert(page_prepared(before, p, id));
        assert(after@.pages[id] == after.headers@[id]@);
        assert(before@.pages[id] == before.headers@[id]@);
        assert(all_unmarked(before@, n).pages[id] == after@.pages[id]);
        let h = before.headers@[id];
        let k = after.headers@[id];
        if h.base <= p < h.base + h.page_size {
            assert(k@ == unmarked(h@));
            assert(held_eq(k.alloc.sizes, h.alloc.sizes));
            assert(k.bmp->0@.len() == (h.alloc.max_blocks + 7) / 8);
        }
    }
    assert forall|id: int, b: int| is_block(after, id, b) implies !#[trigger] is_marked(
        after,
        id,
        b,
    ) by {
        if is_marked(after, id, b) {
            lemma_block_start(after, id, b);
            let a = object_start(after.headers@[id]@, b);
            assert(after.headers@.len() == after.headers.len());
            assert(page_in(before.map@, a) == Some(id as usize));
            assert(page_prepared(before, a, id));
            assert(after@.pages[id] == after.headers@[id]@);
            assert(before@.pages[id] == before.headers@[id]@);
            assert(all_unmarked(before@, n).pages[id] == after@.pages[id]);
            assert(after@.pages[id] == unmarked(before@.pages[id]));
            let cells = after.headers@[id].bmp->0@;
            assert(cells[b / 8] == 0);
            crate::bits::lemma_zero_bits8((b % 8) as u8);
            assert(false);
        }
    }
    assert forall|id: int, b: int| #[trigger] seen_to(after, memory, id, b) by {}
    assert forall|id: int| 0 <= id < memory.len() implies 8 * (#[trigger] memory[id])@.len()
        >= after.headers@[id].page_size by {
        assert(after@.pages[id].page_size == before@.pages[id].page_size);
        assert(after@.pages[id] == after.headers@[id]@);
        assert(before@.pages[id] == before.headers@[id]@);
    }
}

proof fn lemma_spare_kept(g: GcView, n: int)
    ensures
        all_unmarked(g, n).spare == g.spare,
    decreases n,
{
    if n > 0 {
        lemma_spare_kept(g, n - 1);
    }
}

} // verus!
