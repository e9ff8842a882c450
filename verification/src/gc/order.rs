//! How pages, lists and the table of addresses fit together.
//!
//! Every page of a list is found at each of its addresses, and everything that the table
//! leads to is in a list. Making pages, allocating from them, marking, and removing dead
//! pages keep that.

use vstd::prelude::*;

use super::collector::{
    new_paged, next_header, page_possible, page_removed, settled, GarbageCollector, GcView,
};
use super::free_runs::{given, taken, GcFl, StoreView};
use super::marking::{
    all_dead_removed, dead_removed, in_lists, page_dead, page_prepared, pages_ready,
};
use super::page::{block_flushed, flushed, run_reused, FlushState, PageView};
use super::page_map::{
    lemma_page_set, page_address, page_in, page_set, pages_set, table_wf, PageMap,
};
use super::{block_size_of, GC_ALL_PAGES, GC_FIXED_PARTS, GC_LARGE_PART};

verus! {

/// Whether a page with blocks of `block` bytes can be marked: there is a mark bit, and with
/// sizes also a size, for the block of each of its bytes.
pub open spec fn blocks_markable(block: int, size: int, varsize: bool) -> bool {
    let max_blocks = size / block;
    &&& 0 < block
    &&& block % 8 == 0
    &&& 255 * block <= usize::MAX
    &&& 0 <= size
    &&& size % 65536 == 0
    &&& (size - 1) / block < 8 * ((max_blocks + 7) / 8)
    &&& varsize ==> (size - 1) / block < max_blocks
}

/// Pages of the partitions can be marked, whatever their size: where blocks do not fill a
/// page, the mark bits of the last byte are enough for the rest.
pub proof fn lemma_partition_markable(part: int, size: int)
    requires
        0 <= part < GC_LARGE_PART,
        0 < size,
        size % 65536 == 0,
    ensures
        blocks_markable(block_size_of(part), size, part >= GC_FIXED_PARTS),
{
    let b = block_size_of(part);
    let q = size / b;
    if part == 2 {
        if q % 8 == 0 {
            assert(size % 24 == 0);
        }
    } else if part == 4 {
        if q % 8 == 0 {
            assert(size % 40 == 0);
        }
    } else {
        assert(size % b == 0);
    }
}

/// A page for one large object can be marked.
pub proof fn lemma_large_markable(size: int)
    requires
        0 < size,
        size % 65536 == 0,
        255 * size <= usize::MAX,
    ensures
        blocks_markable(size, size, false),
        blocks_markable(size, size, true),
{
    vstd::arithmetic::div_mod::lemma_div_by_self(size);
    vstd::arithmetic::div_mod::lemma_basic_div(size - 1, size);
}

/// The same of a page, with its place in memory.
pub open spec fn page_markable(v: PageView) -> bool {
    &&& v.max_blocks == v.page_size / v.block_size
    &&& blocks_markable(v.block_size, v.page_size, v.sizes is Some)
    &&& v.base % 65536 == 0
    &&& v.base + v.page_size <= u64::MAX
}

/// Whether an address lies in a page.
pub open spec fn in_range(v: PageView, q: u64) -> bool {
    v.base <= q < v.base + v.page_size
}

/// Whether a page can be marked and is found at each of its addresses.
pub open spec fn page_found(g: GcView, id: int) -> bool {
    &&& 0 <= id < g.pages.len()
    &&& page_markable(g.pages[id])
    &&& forall|q: u64| #[trigger]
        in_range(g.pages[id], q) ==> page_in(g.table, q) == Some(id as usize)
}

/// Whether an address at which page `id` is found has the place of an address of that page,
/// and the page is in a list.
pub open spec fn place_owned(g: GcView, p: u64, id: int) -> bool {
    &&& in_lists(g.lists, GC_ALL_PAGES as int, id)
    &&& exists|q: u64| #[trigger] in_range(g.pages[id], q) && PageMap::same_place(q, p)
}

/// Whether no page is twice in the lists.
pub open spec fn listed_once(lists: Seq<Seq<usize>>) -> bool {
    forall|i: int, k: int, j: int, l: int|
        0 <= i < lists.len() && 0 <= k < lists[i].len() && 0 <= j < lists.len() && 0 <= l
            < lists[j].len() && (i != j || k != l) ==> (#[trigger] lists[i][k]) != (
        #[trigger] lists[j][l])
}

/// Whether headers that are not in use are in no list, and each is there once.
pub open spec fn spare_ok(g: GcView) -> bool {
    &&& forall|i: int|
        0 <= i < g.spare.len() ==> (#[trigger] g.spare[i]) < g.pages.len() && !in_lists(
            g.lists,
            GC_ALL_PAGES as int,
            g.spare[i] as int,
        )
    &&& forall|i: int, j: int| 0 <= i < j < g.spare.len() ==> g.spare[i] != g.spare[j]
}

/// Whether pages, lists and the table fit together.
#[verifier::opaque]
pub open spec fn in_order(g: GcView) -> bool {
    &&& table_wf(g.table)
    &&& g.lists.len() == GC_ALL_PAGES
    &&& listed_once(g.lists)
    &&& spare_ok(g)
    &&& forall|pid: int, k: int|
        0 <= pid < g.lists.len() && 0 <= k < g.lists[pid].len() ==> page_found(
            g,
            (#[trigger] g.lists[pid][k]) as int,
        )
    &&& forall|p: u64|
        (#[trigger] page_in(g.table, p)) is Some ==> place_owned(
            g,
            p,
            page_in(g.table, p)->0 as int,
        )
}

/// A collector in order can mark.
pub proof fn lemma_order_ready(gc: &GarbageCollector)
    requires
        gc.wf(),
        in_order(gc@),
    ensures
        pages_ready(gc),
{
    reveal(in_order);
    assert forall|p: u64| (#[trigger] page_in(gc.map@, p)) is Some implies page_prepared(
        gc,
        p,
        page_in(gc.map@, p)->0 as int,
    ) by {
        let id = page_in(gc.map@, p)->0 as int;
        assert(place_owned(gc@, p, id));
        lemma_listed_found(gc@, id);
        assert(gc@.pages[id] == gc.headers@[id]@);
        let h = gc.headers@[id];
        assert forall|q: u64| h.base <= q < h.base + h.page_size implies #[trigger] page_in(
            gc.map@,
            q,
        ) == Some(id as usize) by {
            assert(in_range(gc@.pages[id], q));
        }
    }
}

/// A page of a list is found.
proof fn lemma_listed_found(g: GcView, id: int)
    requires
        in_order(g),
        in_lists(g.lists, GC_ALL_PAGES as int, id),
    ensures
        page_found(g, id),
{
    reveal(in_order);
    let (pid, k) = choose|pid: int, k: int|
        0 <= pid < GC_ALL_PAGES && 0 <= k < g.lists[pid].len() && #[trigger] g.lists[pid][k] == id;
    assert(page_found(g, g.lists[pid][k] as int));
}

/// The low bits of an address do not count for its place.
proof fn lemma_place(q: u64)
    by (bit_vector)
    ensures
        ({
            let a = q & 0xffff_ffff_ffff_0000u64;
            let h = (a ^ ((a >> 33u64) << 28u64)) & 0xf_ffff_ffffu64;
            let g = (q ^ ((q >> 33u64) << 28u64)) & 0xf_ffff_ffffu64;
            &&& a == q - q % 65536
            &&& h >> 26u64 == g >> 26u64
            &&& (h >> 16u64) & 1023u64 == (g >> 16u64) & 1023u64
        }),
{
}

/// An address of a page has the place of one of its pages of memory.
proof fn lemma_range_place(base: u64, size: int, q: u64)
    requires
        base % 65536 == 0,
        size % 65536 == 0,
        base <= q < base + size <= u64::MAX,
    ensures
        ({
            let i = (q - base) / 65536;
            0 <= i < size / 65536 && PageMap::same_place(page_address(base, i), q)
        }),
{
    lemma_place(q);
    let i = (q - base) / 65536;
    assert(page_address(base, i) == q - q % 65536);
}

/// What setting the pages of a range does to the table.
proof fn lemma_pages_set(
    table: Seq<Seq<Option<usize>>>,
    base: u64,
    n: int,
    page: Option<usize>,
)
    requires
        table_wf(table),
    ensures
        table_wf(pages_set(table, base, n, page)),
        forall|q: u64|
            (exists|i: int|
                0 <= i < n && PageMap::same_place(#[trigger] page_address(base, i), q)) ==> (
            #[trigger] page_in(pages_set(table, base, n, page), q)) == page,
        forall|q: u64|
            !(exists|i: int|
                0 <= i < n && PageMap::same_place(#[trigger] page_address(base, i), q)) ==> (
            #[trigger] page_in(pages_set(table, base, n, page), q)) == page_in(table, q),
    decreases n,
{
    if n > 0 {
        lemma_pages_set(table, base, n - 1, page);
        let t = pages_set(table, base, n - 1, page);
        let a = page_address(base, n - 1);
        assert forall|q: u64| page_in(page_set(t, a, page), q) == (if PageMap::same_place(a, q) {
            page
        } else {
            page_in(t, q)
        }) && table_wf(page_set(t, a, page)) by {
            lemma_page_set(t, a, page, q);
        }
        lemma_page_set(t, a, page, 0);
        let w = pages_set(table, base, n, page);
        assert forall|q: u64|
            (exists|i: int|
                0 <= i < n && PageMap::same_place(
                    #[trigger] page_address(base, i),
                    q,
                )) implies (#[trigger] page_in(w, q)) == page by {
            if !PageMap::same_place(a, q) {
                let i = choose|i: int|
                    0 <= i < n && PageMap::same_place(#[trigger] page_address(base, i), q);
                assert(i < n - 1);
            }
        }
        assert forall|q: u64|
            !(exists|i: int|
                0 <= i < n && PageMap::same_place(
                    #[trigger] page_address(base, i),
                    q,
                )) implies (#[trigger] page_in(w, q)) == page_in(table, q) by {
            assert(!PageMap::same_place(page_address(base, n - 1), q));
        }
    }
}

/// Whether two views have the same pages, but for what is free and marked on them.
pub open spec fn same_pages(g: GcView, h: GcView) -> bool {
    &&& h.table == g.table
    &&& h.lists == g.lists
    &&& h.spare == g.spare
    &&& h.pages.len() == g.pages.len()
    &&& forall|i: int| 0 <= i < g.pages.len() ==> same_page(g.pages[i], #[trigger] h.pages[i])
}

/// The same of one page.
pub open spec fn same_page(v: PageView, w: PageView) -> bool {
    &&& w.base == v.base
    &&& w.page_size == v.page_size
    &&& w.block_size == v.block_size
    &&& w.max_blocks == v.max_blocks
    &&& w.sizes is Some == v.sizes is Some
}

/// What is free and marked does not matter for the order.
pub proof fn lemma_order_kept(g: GcView, h: GcView)
    requires
        in_order(g),
        same_pages(g, h),
    ensures
        in_order(h),
{
    reveal(in_order);
    assert forall|pid: int, k: int|
        0 <= pid < h.lists.len() && 0 <= k < h.lists[pid].len() implies page_found(
        h,
        (#[trigger] h.lists[pid][k]) as int,
    ) by {
        let id = h.lists[pid][k] as int;
        assert(page_found(g, g.lists[pid][k] as int));
        assert(same_page(g.pages[id], h.pages[id]));
        assert forall|q: u64| #[trigger] in_range(h.pages[id], q) implies page_in(h.table, q)
            == Some(id as usize) by {
            assert(in_range(g.pages[id], q));
        }
    }
    assert forall|p: u64| (#[trigger] page_in(h.table, p)) is Some implies place_owned(
        h,
        p,
        page_in(h.table, p)->0 as int,
    ) by {
        let id = page_in(h.table, p)->0 as int;
        assert(place_owned(g, p, page_in(g.table, p)->0 as int));
        lemma_listed_found(g, id);
        let q = choose|q: u64| #[trigger]
            in_range(g.pages[id], q) && PageMap::same_place(q, p);
        assert(same_page(g.pages[id], h.pages[id]));
        assert(in_range(h.pages[id], q));
    }
}

/// Making the runs of a page anew leaves sizes where there were sizes.
proof fn lemma_flushed_sizes(
    st: FlushState,
    old_runs: Seq<GcFl>,
    bmp: Seq<u8>,
    max_blocks: int,
    fuel: nat,
)
    ensures
        flushed(st, old_runs, bmp, max_blocks, fuel).sizes is Some == st.sizes is Some,
    decreases fuel,
{
    if fuel > 0 && st.bid < max_blocks {
        let st1 = run_reused(st, old_runs);
        if st1.bid < max_blocks {
            lemma_flushed_sizes(
                block_flushed(st1, bmp),
                old_runs,
                bmp,
                max_blocks,
                (fuel - 1) as nat,
            );
        }
    }
}

/// Making the runs of a page anew keeps its place, its blocks, and whether it has sizes.
pub proof fn lemma_settled_same(v: PageView, store: StoreView)
    ensures
        same_page(v, settled(v, store).0),
{
    if v.need_flush {
        lemma_flushed_sizes(
            FlushState {
                bid: v.first_block,
                runs: Seq::empty(),
                reused: 0,
                sizes: v.sizes,
                bits: v.bits,
                store: taken(store, v.bits),
            },
            v.runs.skip(v.current),
            v.bmp->0,
            v.max_blocks,
            (v.max_blocks - v.first_block) as nat,
        );
    }
}

/// Whether no page is found at the addresses of a range.
pub open spec fn range_free(g: GcView, base: u64, size: int) -> bool {
    forall|i: int|
        0 <= i < size / 65536 ==> page_in(g.table, #[trigger] page_address(base, i)) is None
}

/// A new page at addresses where no page is found keeps the order.
pub proof fn lemma_new_page_order(
    g: GcView,
    pid: int,
    block: int,
    size: int,
    kind: i32,
    varsize: bool,
    base: u64,
)
    requires
        in_order(g),
        0 <= pid < GC_ALL_PAGES,
        g.pages.len() < usize::MAX,
        page_possible(block, size, varsize, base),
        blocks_markable(block, size, varsize),
        range_free(g, base, size),
    ensures
        in_order(new_paged(g, pid, block, size, kind, varsize, base)),
{
    reveal(in_order);
    let h = new_paged(g, pid, block, size, kind, varsize, base);
    let id = next_header(g);
    let n = size / 65536;
    lemma_pages_set(g.table, base, n, Some(id as usize));
    assert(h.table == pages_set(g.table, base, n, Some(id as usize)));
    assert(0 <= id <= g.pages.len()) by {
        if g.spare.len() > 0 {
            assert(g.spare[g.spare.len() - 1] < g.pages.len());
        }
    }
    assert(!in_lists(g.lists, GC_ALL_PAGES as int, id)) by {
        if g.spare.len() > 0 {
            assert(!in_lists(
                g.lists,
                GC_ALL_PAGES as int,
                g.spare[g.spare.len() - 1] as int,
            ));
        } else if in_lists(g.lists, GC_ALL_PAGES as int, id) {
            lemma_listed_found(g, id);
        }
    }
    let v = h.pages[id];
    assert(page_markable(v));
    // the new page is found
    assert forall|q: u64| #[trigger] in_range(v, q) implies page_in(h.table, q) == Some(
        id as usize,
    ) by {
        lemma_range_place(base, size, q);
        let i = (q - base) / 65536;
        assert(PageMap::same_place(page_address(base, i), q));
    }
    assert(page_found(h, id));
    // the members of the lists
    assert forall|i: int, k: int|
        0 <= i < h.lists.len() && 0 <= k < h.lists[i].len() implies ((#[trigger] h.lists[i][k])
        == id && i == pid && k == g.lists[pid].len()) || (k < g.lists[i].len() && h.lists[i][k]
        == g.lists[i][k] && h.lists[i][k] != id) by {
        if k < g.lists[i].len() {
            assert(h.lists[i][k] == g.lists[i][k]);
            if g.lists[i][k] == id {
                assert(in_lists(g.lists, GC_ALL_PAGES as int, id));
            }
        }
    }
    assert(listed_once(h.lists)) by {
        assert forall|i: int, k: int, j: int, l: int|
            0 <= i < h.lists.len() && 0 <= k < h.lists[i].len() && 0 <= j < h.lists.len() && 0 <= l
                < h.lists[j].len() && (i != j || k != l) implies (#[trigger] h.lists[i][k]) != (
        #[trigger] h.lists[j][l]) by {
            if h.lists[i][k] != id && h.lists[j][l] != id {
                assert(g.lists[i][k] != g.lists[j][l]);
            }
        }
    }
    assert forall|i: int| in_lists(h.lists, GC_ALL_PAGES as int, i) implies i == id || in_lists(
        g.lists,
        GC_ALL_PAGES as int,
        i,
    ) by {
        let (a, k) = choose|a: int, k: int|
            0 <= a < GC_ALL_PAGES && 0 <= k < h.lists[a].len() && #[trigger] h.lists[a][k] == i;
        if h.lists[a][k] != id {
            assert(g.lists[a][k] == i);
        }
    }
    assert forall|i: int| in_lists(g.lists, GC_ALL_PAGES as int, i) implies in_lists(
        h.lists,
        GC_ALL_PAGES as int,
        i,
    ) by {
        let (a, k) = choose|a: int, k: int|
            0 <= a < GC_ALL_PAGES && 0 <= k < g.lists[a].len() && #[trigger] g.lists[a][k] == i;
        assert(h.lists[a][k] == i);
    }
    assert(in_lists(h.lists, GC_ALL_PAGES as int, id)) by {
        assert(h.lists[pid][g.lists[pid].len() as int] == id);
    }
    assert(spare_ok(h)) by {
        assert forall|i: int| 0 <= i < h.spare.len() implies (#[trigger] h.spare[i])
            < h.pages.len() && !in_lists(h.lists, GC_ALL_PAGES as int, h.spare[i] as int) by {
            assert(h.spare[i] == g.spare[i]);
            assert(g.spare[i] < g.pages.len());
            assert(h.spare[i] != id);
        }
        assert forall|i: int, j: int| 0 <= i < j < h.spare.len() implies h.spare[i]
            != h.spare[j] by {
            assert(g.spare[i] != g.spare[j]);
        }
    }
    // the places of other pages are not those of the new one
    assert forall|q: u64| (#[trigger] page_in(g.table, q)) is Some implies page_in(h.table, q)
        == page_in(g.table, q) by {
        if exists|i: int| 0 <= i < n && PageMap::same_place(#[trigger] page_address(base, i), q) {
            let i = choose|i: int|
                0 <= i < n && PageMap::same_place(#[trigger] page_address(base, i), q);
            assert(page_in(g.table, page_address(base, i)) is None);
            assert(page_in(g.table, q) == page_in(g.table, page_address(base, i)));
        }
    }
    assert forall|i: int, k: int|
        0 <= i < h.lists.len() && 0 <= k < h.lists[i].len() implies page_found(
        h,
        (#[trigger] h.lists[i][k]) as int,
    ) by {
        let j = h.lists[i][k] as int;
        if j != id {
            assert(page_found(g, g.lists[i][k] as int));
            assert(h.pages[j] == g.pages[j]);
            assert forall|q: u64| #[trigger] in_range(h.pages[j], q) implies page_in(h.table, q)
                == Some(j as usize) by {
                assert(in_range(g.pages[j], q));
                assert(page_in(g.table, q) is Some);
            }
        }
    }
    assert forall|p: u64| (#[trigger] page_in(h.table, p)) is Some implies place_owned(
        h,
        p,
        page_in(h.table, p)->0 as int,
    ) by {
        if exists|i: int| 0 <= i < n && PageMap::same_place(#[trigger] page_address(base, i), p) {
            let i = choose|i: int|
                0 <= i < n && PageMap::same_place(#[trigger] page_address(base, i), p);
            let q = page_address(base, i);
            assert(q == base + i * 65536);
            assert(in_range(v, q));
        } else {
            let j = page_in(g.table, p)->0 as int;
            assert(place_owned(g, p, page_in(g.table, p)->0 as int));
            lemma_listed_found(g, j);
            assert(j != id);
            let q = choose|q: u64| #[trigger]
                in_range(g.pages[j], q) && PageMap::same_place(q, p);
            assert(h.pages[j] == g.pages[j]);
            assert(in_range(h.pages[j], q));
        }
    }
}

/// Removing a page of a list keeps the order.
proof fn lemma_page_removed_order(g: GcView, g1: GcView, pid: int, k: int, blocks: int)
    requires
        in_order(g),
        0 <= pid < GC_ALL_PAGES,
        0 <= k < g.lists[pid].len(),
        g1.lists == g.lists.update(pid, g.lists[pid].remove(k)),
        g1.pages == g.pages,
        g1.spare == g.spare,
        g1.table == g.table,
    ensures
        in_order(page_removed(g1, g.lists[pid][k] as int, blocks)),
{
    reveal(in_order);
    let id = g.lists[pid][k] as int;
    let h = page_removed(g1, id, blocks);
    assert(page_found(g, g.lists[pid][k] as int));
    let v = g.pages[id];
    let n = v.page_size / 65536;
    lemma_pages_set(g.table, v.base, n, None);
    let all = GC_ALL_PAGES as int;
    // where the members of the lists were
    assert forall|i: int, l: int|
        0 <= i < h.lists.len() && 0 <= l < h.lists[i].len() implies (#[trigger] h.lists[i][l])
        == g.lists[i][if i == pid && l >= k {
        l + 1
    } else {
        l
    }] by {}
    assert(listed_once(h.lists)) by {
        assert forall|i: int, a: int, j: int, b: int|
            0 <= i < h.lists.len() && 0 <= a < h.lists[i].len() && 0 <= j < h.lists.len() && 0 <= b
                < h.lists[j].len() && (i != j || a != b) implies (#[trigger] h.lists[i][a]) != (
        #[trigger] h.lists[j][b]) by {
            let a2 = if i == pid && a >= k {
                a + 1
            } else {
                a
            };
            let b2 = if j == pid && b >= k {
                b + 1
            } else {
                b
            };
            assert(g.lists[i][a2] != g.lists[j][b2]);
        }
    }
    assert(!in_lists(h.lists, all, id)) by {
        if in_lists(h.lists, all, id) {
            let (i, l) = choose|i: int, l: int|
                0 <= i < all && 0 <= l < h.lists[i].len() && #[trigger] h.lists[i][l] == id;
            let l2 = if i == pid && l >= k {
                l + 1
            } else {
                l
            };
            assert(g.lists[i][l2] == id);
            assert(i != pid || l2 != k);
            assert(g.lists[i][l2] != g.lists[pid][k]);
        }
    }
    assert forall|j: int| in_lists(h.lists, all, j) implies in_lists(g.lists, all, j) by {
        let (i, l) = choose|i: int, l: int|
            0 <= i < all && 0 <= l < h.lists[i].len() && #[trigger] h.lists[i][l] == j;
        let l2 = if i == pid && l >= k {
            l + 1
        } else {
            l
        };
        assert(g.lists[i][l2] == j);
    }
    assert forall|j: int| in_lists(g.lists, all, j) && j != id implies in_lists(
        h.lists,
        all,
        j,
    ) by {
        let (i, l) = choose|i: int, l: int|
            0 <= i < all && 0 <= l < g.lists[i].len() && #[trigger] g.lists[i][l] == j;
        let l2 = if i == pid && l > k {
            l - 1
        } else {
            l
        };
        assert(i != pid || l != k);
        assert(h.lists[i][l2] == j);
    }
    assert(spare_ok(h)) by {
        assert forall|i: int| 0 <= i < h.spare.len() implies (#[trigger] h.spare[i])
            < h.pages.len() && !in_lists(h.lists, all, h.spare[i] as int) by {
            if i < g.spare.len() {
                assert(h.spare[i] == g.spare[i]);
                assert(!in_lists(g.lists, all, g.spare[i] as int));
            }
        }
        assert forall|i: int, j: int| 0 <= i < j < h.spare.len() implies h.spare[i]
            != h.spare[j] by {
            if j < g.spare.len() {
                assert(g.spare[i] != g.spare[j]);
            } else {
                assert(!in_lists(g.lists, all, g.spare[i] as int));
                assert(in_lists(g.lists, all, id)) by {
                    assert(g.lists[pid][k] == id);
                }
            }
        }
    }
    // what was cleared led to the page
    assert forall|q: u64|
        page_in(g.table, q) is Some && page_in(g.table, q) != Some(id as usize) implies (
    #[trigger] page_in(h.table, q)) == page_in(g.table, q) by {
        if exists|i: int| 0 <= i < n && PageMap::same_place(#[trigger] page_address(v.base, i), q) {
            let i = choose|i: int|
                0 <= i < n && PageMap::same_place(#[trigger] page_address(v.base, i), q);
            let a = page_address(v.base, i);
            assert(a == v.base + i * 65536);
            assert(in_range(v, a));
            assert(page_in(g.table, a) == Some(id as usize));
            assert(page_in(g.table, q) == page_in(g.table, a));
        }
    }
    assert forall|q: u64| page_in(g.table, q) == Some(id as usize) implies (
    #[trigger] page_in(h.table, q)) is None by {
        assert(place_owned(g, q, page_in(g.table, q)->0 as int));
        let a = choose|a: u64| #[trigger] in_range(v, a) && PageMap::same_place(a, q);
        lemma_range_place(v.base, v.page_size, a);
        let i = (a - v.base) / 65536;
        assert(PageMap::same_place(page_address(v.base, i), q));
    }
    assert forall|i: int, l: int|
        0 <= i < h.lists.len() && 0 <= l < h.lists[i].len() implies page_found(
        h,
        (#[trigger] h.lists[i][l]) as int,
    ) by {
        let j = h.lists[i][l] as int;
        assert(in_lists(h.lists, all, j));
        assert(j != id);
        lemma_listed_found(g, j);
        assert forall|q: u64| #[trigger] in_range(h.pages[j], q) implies page_in(h.table, q)
            == Some(j as usize) by {
            assert(in_range(g.pages[j], q));
            assert(page_in(g.table, q) == Some(j as usize));
        }
    }
    assert forall|p: u64| (#[trigger] page_in(h.table, p)) is Some implies place_owned(
        h,
        p,
        page_in(h.table, p)->0 as int,
    ) by {
        assert(page_in(g.table, p) == page_in(h.table, p)) by {
            if page_in(g.table, p) is None {
                if exists|i: int|
                    0 <= i < n && PageMap::same_place(#[trigger] page_address(v.base, i), p) {
                } else {
                }
            }
        }
        let j = page_in(g.table, p)->0 as int;
        assert(place_owned(g, p, j));
        let q = choose|q: u64| #[trigger] in_range(g.pages[j], q) && PageMap::same_place(q, p);
        assert(in_range(h.pages[j], q));
    }
}

/// Removing the dead pages of a list keeps the order.
proof fn lemma_dead_removed_order(g: GcView, pid: int, k: int)
    requires
        in_order(g),
        0 <= pid < GC_ALL_PAGES,
        0 <= k <= g.lists[pid].len(),
    ensures
        in_order(dead_removed(g, pid, k)),
    decreases k,
{
    reveal(in_order);
    if k > 0 {
        let id = g.lists[pid][k - 1] as int;
        let p = g.pages[id];
        if page_dead(p) {
            let g1 = GcView {
                lists: g.lists.update(pid, g.lists[pid].remove(k - 1)),
                free: g.free.update(
                    pid,
                    if g.free[pid] >= k {
                        g.free[pid] - 1
                    } else {
                        g.free[pid]
                    },
                ),
                store: given(g.store, p.bits),
                ..g
            };
            lemma_page_removed_order(g, g1, pid, k - 1, p.max_blocks);
            lemma_dead_removed_order(page_removed(g1, id, p.max_blocks), pid, k - 1);
        } else {
            lemma_dead_removed_order(g, pid, k - 1);
        }
    }
}

/// Removing the dead pages of all lists keeps the order.
pub proof fn lemma_all_dead_removed_order(g: GcView, n: int)
    requires
        in_order(g),
        0 <= n <= GC_ALL_PAGES,
    ensures
        in_order(all_dead_removed(g, n)),
    decreases n,
{
    reveal(in_order);
    if n > 0 {
        lemma_all_dead_removed_order(g, n - 1);
        let rest = all_dead_removed(g, n - 1);
        lemma_dead_removed_order(rest, n - 1, rest.lists[n - 1].len() as int);
    }
}

} // verus!
