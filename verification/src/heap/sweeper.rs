//! Sweeping: memory that is no longer in use becomes free. Regions are swept one by
//! one; sweeping can be cancelled between any two of them.

use crossbeam_queue::SegQueue;
use vstd::prelude::*;

use super::bitmap::lemma_walk_end_aligned;
use super::free_list::{
    apart_from_all, biggest_with, bucket_of, entries_apart, has_entry, lemma_apart_add, lists_with, Entry,
    ENTRY_SIZE,
};
use super::free_set::regions_wf;
use super::log2_floor;
use super::marking_context::MarkingContext;
use super::queue::{queue_items, queue_new, queue_pop, queue_push};
use super::region::{
    entries_within, lemma_log2_monotone, no_entries, HeapOptions, HeapRegion, RegionState,
};
use crate::bits::lemma_low32;

verus! {

/// A piece of a region: an object, or memory that is free. Pieces follow each other
/// without gaps from the start of the region to its end.
#[derive(Clone, Copy, PartialEq, Eq, Debug, Structural)]
pub struct Block {
    pub size: usize,
    pub is_free: bool,
}

/// The offset of block `n`.
pub open spec fn offset(blocks: Seq<Block>, n: int) -> int
    decreases n,
{
    if n <= 0 {
        0
    } else {
        offset(blocks, n - 1) + blocks[n - 1].size
    }
}

/// Whether blocks fill a range of `size` bytes.
pub open spec fn fills(blocks: Seq<Block>, size: int) -> bool {
    &&& offset(blocks, blocks.len() as int) == size
    &&& forall|i: int| 0 <= i < blocks.len() ==> (#[trigger] blocks[i]).size > 0
}

/// Whether block `i` holds a marked object.
pub open spec fn live(ctx: &MarkingContext, blocks: Seq<Block>, begin: int, i: int) -> bool {
    !blocks[i].is_free && ctx.marked(begin + offset(blocks, i))
}

/// How far a region has been swept.
#[verifier::ext_equal]
pub struct SweepState {
    /// The end of the last live object, or the start of the region.
    pub gap: int,
    pub lists: Seq<Seq<Entry>>,
    pub biggest: int,
    pub largest: int,
    pub used: int,
    pub free: int,
    /// The number of free entries, and their bytes. Gaps that are too small have none.
    pub entries: int,
    pub listed: int,
    /// The slots of the live objects.
    pub starts: Set<int>,
}

/// The state after the gap up to `end`, if there is one, has been made free.
pub open spec fn gap_closed(st: SweepState, end: int) -> SweepState {
    if st.gap == end {
        st
    } else {
        let size = (end - st.gap) as usize;
        SweepState {
            lists: lists_with(st.lists, st.gap as usize, size),
            biggest: biggest_with(st.biggest, size),
            largest: if st.largest >= size {
                st.largest
            } else {
                size as int
            },
            free: st.free + size,
            entries: if size >= ENTRY_SIZE {
                st.entries + 1
            } else {
                st.entries
            },
            listed: if size >= ENTRY_SIZE {
                st.listed + size
            } else {
                st.listed
            },
            ..st
        }
    }
}

/// The state after the first `n` blocks have been looked at.
pub open spec fn swept(
    ctx: &MarkingContext,
    blocks: Seq<Block>,
    begin: int,
    lists: Seq<Seq<Entry>>,
    n: int,
) -> SweepState
    decreases n,
{
    if n <= 0 {
        SweepState {
            gap: begin,
            lists,
            biggest: 0,
            largest: 0,
            used: 0,
            free: 0,
            entries: 0,
            listed: 0,
            starts: Set::empty(),
        }
    } else {
        let st = swept(ctx, blocks, begin, lists, n - 1);
        let at = begin + offset(blocks, n - 1);
        if live(ctx, blocks, begin, n - 1) {
            SweepState {
                gap: at + blocks[n - 1].size,
                used: st.used + blocks[n - 1].size,
                starts: st.starts.insert((at - begin) / 16),
                ..gap_closed(st, at)
            }
        } else {
            st
        }
    }
}

/// The state after the region that ends at `end` has been swept.
pub open spec fn swept_all(
    ctx: &MarkingContext,
    blocks: Seq<Block>,
    begin: int,
    end: int,
    lists: Seq<Seq<Entry>>,
) -> SweepState {
    gap_closed(swept(ctx, blocks, begin, lists, blocks.len() as int), end)
}

/// As many empty lists.
pub open spec fn emptied(lists: Seq<Seq<Entry>>) -> Seq<Seq<Entry>> {
    Seq::new(lists.len(), |i: int| Seq::<Entry>::empty())
}

/// Whether the mark bits cover a region, slot by slot.
pub open spec fn sweepable(ctx: &MarkingContext, region: &HeapRegion) -> bool {
    &&& ctx.wf()
    &&& ctx.bits().start() <= region.begin
    &&& region.end <= ctx.bits().end()
    &&& ctx.bits().start() % 16 == 0
    &&& region.begin % 16 == 0
    &&& region.end % 16 == 0
}

/// Whether a region is as before but for what a sweep says of it.
pub open spec fn region_swept(before: &HeapRegion, after: &HeapRegion, st: SweepState) -> bool {
    &&& after.typ == before.typ
    &&& after.index == before.index
    &&& after.begin == before.begin
    &&& after.end == before.end
    &&& after.visited == before.visited
    &&& after.empty_time == before.empty_time
    &&& after.to_sweep == before.to_sweep
    &&& after.object_start_bitmap.same_shape(&before.object_start_bitmap)
    &&& after.object_start_bitmap.slots() == st.starts
    &&& after.free_list.lists() == st.lists
    &&& after.free_list.biggest() == st.biggest
    &&& after.largest_free_list_entry == st.largest
    &&& after.last_sweep_free == st.free
    &&& after.free_list.free_total() == st.listed
    &&& after.free_list.entries() == st.entries
    &&& after.used == st.used
}

/// Offsets grow.
proof fn lemma_offset_monotone(blocks: Seq<Block>, i: int, j: int)
    requires
        0 <= i <= j <= blocks.len(),
        forall|i: int| 0 <= i < blocks.len() ==> (#[trigger] blocks[i]).size > 0,
    ensures
        offset(blocks, j) - offset(blocks, i) >= j - i,
    decreases j - i,
{
    if i < j {
        lemma_offset_monotone(blocks, i, j - 1);
        assert(blocks[j - 1].size > 0);
    }
}

/// Where a sweep is: behind everything that it has put in the lists.
proof fn lemma_swept(
    ctx: &MarkingContext,
    blocks: Seq<Block>,
    begin: int,
    lists: Seq<Seq<Entry>>,
    n: int,
)
    requires
        0 <= n <= blocks.len(),
        begin >= 0,
        begin + offset(blocks, n) <= usize::MAX,
        forall|i: int| 0 <= i < blocks.len() ==> (#[trigger] blocks[i]).size > 0,
    ensures
        ({
            let st = swept(ctx, blocks, begin, lists, n);
            &&& begin <= st.gap <= begin + offset(blocks, n)
            &&& st.used + st.free + begin == st.gap
            &&& 0 <= st.used
            &&& 0 <= st.free
            &&& 0 <= st.largest <= st.free
            &&& 0 <= st.entries <= st.listed <= st.free
            &&& st.gap == begin ==> st.used == 0 && st.free == 0
            &&& st.gap == begin <==> forall|i: int|
                0 <= i < n ==> !#[trigger] live(ctx, blocks, begin, i)
        }),
    decreases n,
{
    if n > 0 {
        lemma_offset_monotone(blocks, 0, n - 1);
        assert(blocks[n - 1].size > 0);
        lemma_swept(ctx, blocks, begin, lists, n - 1);
    }
}

/// Sweeping finds a place for every byte: what is not in use is free.
pub proof fn lemma_sweep_accounts(
    ctx: &MarkingContext,
    blocks: Seq<Block>,
    begin: int,
    end: int,
    lists: Seq<Seq<Entry>>,
)
    requires
        0 <= begin <= end <= usize::MAX,
        fills(blocks, end - begin),
    ensures
        swept_all(ctx, blocks, begin, end, lists).used + swept_all(
            ctx,
            blocks,
            begin,
            end,
            lists,
        ).free == end - begin,
{
    lemma_swept(ctx, blocks, begin, lists, blocks.len() as int);
}

/// Whether no entry shares a byte with a live object among the first `n` blocks.
pub open spec fn spares_live(
    ctx: &MarkingContext,
    blocks: Seq<Block>,
    begin: int,
    lists: Seq<Seq<Entry>>,
    n: int,
) -> bool {
    forall|i: int|
        0 <= i < n && #[trigger] live(ctx, blocks, begin, i) ==> apart_from_all(
            lists,
            begin + offset(blocks, i),
            blocks[i].size as int,
        )
}

/// Closing a gap keeps entries apart and spares what lies in front of the gap.
proof fn lemma_gap_closed(st: SweepState, begin: int, end: int)
    requires
        0 < begin <= st.gap <= end <= usize::MAX,
        end - begin <= u32::MAX,
        log2_floor(end - begin) < st.lists.len(),
        entries_apart(st.lists),
        entries_within(st.lists, begin, st.gap),
    ensures
        entries_apart(gap_closed(st, end).lists),
        entries_within(gap_closed(st, end).lists, begin, end),
        gap_closed(st, end).lists.len() == st.lists.len(),
        forall|a: int, n: int| #[trigger]
            apart_from_all(st.lists, a, n) && a + n <= st.gap ==> apart_from_all(
                gap_closed(st, end).lists,
                a,
                n,
            ),
{
    if st.gap != end {
        let size = (end - st.gap) as usize;
        let addr = st.gap as usize;
        let next = gap_closed(st, end).lists;
        lemma_low32(size);
        lemma_log2_monotone(size as int, end - begin);
        assert(apart_from_all(st.lists, addr as int, size as int));
        lemma_apart_add(st.lists, addr, size);
        assert forall|i: int, j: int| has_entry(next, i, j) implies begin <= (
        #[trigger] next[i][j]).addr && next[i][j].addr + next[i][j].size <= end by {
            if has_entry(st.lists, i, j) && next[i][j] == st.lists[i][j] {
            } else {
                assert(next[i][j] == (Entry { addr, size }));
            }
        }
    }
}

proof fn lemma_spares(
    ctx: &MarkingContext,
    blocks: Seq<Block>,
    begin: int,
    end: int,
    lists: Seq<Seq<Entry>>,
    n: int,
)
    requires
        0 <= n <= blocks.len(),
        0 < begin <= end <= usize::MAX,
        end - begin <= u32::MAX,
        begin < end,
        fills(blocks, end - begin),
        log2_floor(end - begin) < lists.len(),
        no_entries(lists),
    ensures
        ({
            let st = swept(ctx, blocks, begin, lists, n);
            &&& entries_apart(st.lists)
            &&& entries_within(st.lists, begin, st.gap)
            &&& st.lists.len() == lists.len()
            &&& spares_live(ctx, blocks, begin, st.lists, n)
            &&& forall|i: int|
                0 <= i < n && #[trigger] live(ctx, blocks, begin, i) ==> begin + offset(blocks, i)
                    + blocks[i].size <= st.gap
        }),
    decreases n,
{
    let st = swept(ctx, blocks, begin, lists, n);
    if n <= 0 {
        assert forall|i: int, j: int| !has_entry(lists, i, j) by {
            if 0 <= i < lists.len() {
                assert(lists[i] == Seq::<Entry>::empty());
            }
        }
    } else {
        lemma_spares(ctx, blocks, begin, end, lists, n - 1);
        lemma_offset_monotone(blocks, n, blocks.len() as int);
        lemma_offset_monotone(blocks, 0, n - 1);
        assert(blocks[n - 1].size > 0);
        lemma_swept(ctx, blocks, begin, lists, n - 1);
        let prev = swept(ctx, blocks, begin, lists, n - 1);
        let at = begin + offset(blocks, n - 1);
        if live(ctx, blocks, begin, n - 1) {
            if at > begin {
                lemma_log2_monotone(at - begin, end - begin);
                lemma_gap_closed(prev, begin, at);
            } else {
                assert(prev.gap == at);
            }
            assert forall|i: int| 0 <= i < n && #[trigger] live(ctx, blocks, begin, i)
                implies apart_from_all(
                st.lists,
                begin + offset(blocks, i),
                blocks[i].size as int,
            ) by {
                if i < n - 1 {
                    assert(apart_from_all(
                        prev.lists,
                        begin + offset(blocks, i),
                        blocks[i].size as int,
                    ));
                }
            }
        }
    }
}

/// Sweeping a region never makes a live object free, and no byte is free twice.
pub proof fn lemma_sweep_spares_live(
    ctx: &MarkingContext,
    blocks: Seq<Block>,
    begin: int,
    end: int,
    lists: Seq<Seq<Entry>>,
)
    requires
        0 < begin < end <= usize::MAX,
        end - begin <= u32::MAX,
        fills(blocks, end - begin),
        log2_floor(end - begin) < lists.len(),
        no_entries(lists),
    ensures
        ({
            let st = swept_all(ctx, blocks, begin, end, lists);
            &&& entries_apart(st.lists)
            &&& entries_within(st.lists, begin, end)
            &&& spares_live(ctx, blocks, begin, st.lists, blocks.len() as int)
        }),
{
    let n = blocks.len() as int;
    lemma_spares(ctx, blocks, begin, end, lists, n);
    lemma_swept(ctx, blocks, begin, lists, n);
    let st = swept(ctx, blocks, begin, lists, n);
    lemma_gap_closed(st, begin, end);
    assert forall|i: int| 0 <= i < n && #[trigger] live(ctx, blocks, begin, i)
        implies apart_from_all(
        gap_closed(st, end).lists,
        begin + offset(blocks, i),
        blocks[i].size as int,
    ) by {
        assert(apart_from_all(st.lists, begin + offset(blocks, i), blocks[i].size as int));
    }
}

/// Whether a piece is an entry of the lists.
pub open spec fn listed(lists: Seq<Seq<Entry>>, addr: int, size: int) -> bool {
    exists|i: int, j: int|
        has_entry(lists, i, j) && (#[trigger] lists[i][j]).addr == addr && lists[i][j].size == size
}

/// Whether an address is the start of the region, or the end of a live object among the
/// first `n` blocks.
pub open spec fn behind_live(
    ctx: &MarkingContext,
    blocks: Seq<Block>,
    begin: int,
    n: int,
    addr: int,
) -> bool {
    addr == begin || exists|i: int|
        0 <= i < n && #[trigger] live(ctx, blocks, begin, i) && addr == begin + offset(blocks, i)
            + blocks[i].size
}

/// Whether a live object among the first `n` blocks starts at an address.
pub open spec fn live_at(
    ctx: &MarkingContext,
    blocks: Seq<Block>,
    begin: int,
    n: int,
    addr: int,
) -> bool {
    exists|i: int|
        0 <= i < n && #[trigger] live(ctx, blocks, begin, i) && addr == begin + offset(blocks, i)
}

/// Whether no live object among the first `n` blocks has a byte in `a..b`.
pub open spec fn no_live_in(
    ctx: &MarkingContext,
    blocks: Seq<Block>,
    begin: int,
    n: int,
    a: int,
    b: int,
) -> bool {
    forall|i: int|
        0 <= i < n && #[trigger] live(ctx, blocks, begin, i) ==> begin + offset(blocks, i)
            + blocks[i].size <= a || b <= begin + offset(blocks, i)
}

/// Whether `a..b` is a gap: it holds no live object, and it is as long as can be, from the
/// start of the region or a live object up to the next one, or up to `end`.
pub open spec fn is_gap(
    ctx: &MarkingContext,
    blocks: Seq<Block>,
    begin: int,
    end: int,
    n: int,
    a: int,
    b: int,
) -> bool {
    &&& a < b
    &&& behind_live(ctx, blocks, begin, n, a)
    &&& b == end || live_at(ctx, blocks, begin, n, b)
    &&& no_live_in(ctx, blocks, begin, n, a, b)
}

/// The bytes of the live objects among the first `n` blocks.
pub open spec fn live_bytes(ctx: &MarkingContext, blocks: Seq<Block>, begin: int, n: int) -> int
    decreases n,
{
    if n <= 0 {
        0
    } else if live(ctx, blocks, begin, n - 1) {
        live_bytes(ctx, blocks, begin, n - 1) + blocks[n - 1].size
    } else {
        live_bytes(ctx, blocks, begin, n - 1)
    }
}

/// Whether what a sweep up to `end` has built fits the first `n` blocks: objects start where
/// live ones do, their bytes are in use, the gaps are the free entries unless they are too
/// small, and the largest one is known.
pub open spec fn sweep_fits(
    ctx: &MarkingContext,
    blocks: Seq<Block>,
    begin: int,
    end: int,
    n: int,
    st: SweepState,
) -> bool {
    &&& forall|s: int| #[trigger]
        st.starts.contains(s) <==> exists|i: int|
            0 <= i < n && #[trigger] live(ctx, blocks, begin, i) && s == offset(blocks, i) / 16
    &&& st.used == live_bytes(ctx, blocks, begin, n)
    &&& forall|a: int, size: int| #[trigger]
        listed(st.lists, a, size) <==> size >= ENTRY_SIZE && is_gap(
            ctx,
            blocks,
            begin,
            end,
            n,
            a,
            a + size,
        )
    &&& forall|a: int, b: int| #[trigger]
        is_gap(ctx, blocks, begin, end, n, a, b) ==> b - a <= st.largest
    &&& st.largest > 0 ==> exists|a: int, b: int| #[trigger]
        is_gap(ctx, blocks, begin, end, n, a, b) && b - a == st.largest
}

/// What a closed gap adds to the lists.
proof fn lemma_listed(lists: Seq<Seq<Entry>>, addr: usize, size: usize)
    requires
        size >= ENTRY_SIZE ==> 0 <= bucket_of(size) < lists.len(),
    ensures
        forall|a: int, n: int| #[trigger]
            listed(lists_with(lists, addr, size), a, n) <==> listed(lists, a, n) || (a == addr
                && n == size && size >= ENTRY_SIZE),
{
    let next = lists_with(lists, addr, size);
    if size >= ENTRY_SIZE {
        let b = bucket_of(size);
        assert(has_entry(next, b, lists[b].len() as int));
        assert(next[b][lists[b].len() as int] == (Entry { addr, size }));
        assert forall|a: int, n: int| #[trigger] listed(next, a, n) <==> listed(lists, a, n) || (a
            == addr && n == size) by {
            if listed(lists, a, n) {
                let (i, j) = choose|i: int, j: int|
                    has_entry(lists, i, j) && (#[trigger] lists[i][j]).addr == a
                        && lists[i][j].size == n;
                assert(has_entry(next, i, j) && next[i][j] == lists[i][j]);
            }
            if listed(next, a, n) && !(a == addr && n == size) {
                let (i, j) = choose|i: int, j: int|
                    has_entry(next, i, j) && (#[trigger] next[i][j]).addr == a && next[i][j].size
                        == n;
                assert(has_entry(lists, i, j) && lists[i][j] == next[i][j]);
            }
        }
    }
}

/// A sweep is behind all live objects that it has seen, and right behind the last one.
proof fn lemma_gap_start(
    ctx: &MarkingContext,
    blocks: Seq<Block>,
    begin: int,
    lists: Seq<Seq<Entry>>,
    n: int,
)
    requires
        0 <= n <= blocks.len(),
        forall|i: int| 0 <= i < blocks.len() ==> (#[trigger] blocks[i]).size > 0,
    ensures
        ({
            let st = swept(ctx, blocks, begin, lists, n);
            &&& behind_live(ctx, blocks, begin, n, st.gap)
            &&& forall|i: int|
                0 <= i < n && #[trigger] live(ctx, blocks, begin, i) ==> begin + offset(blocks, i)
                    + blocks[i].size <= st.gap
            &&& begin <= st.gap <= begin + offset(blocks, n)
        }),
    decreases n,
{
    if n > 0 {
        lemma_gap_start(ctx, blocks, begin, lists, n - 1);
        lemma_offset_monotone(blocks, 0, n - 1);
        assert(blocks[n - 1].size > 0);
        let st = swept(ctx, blocks, begin, lists, n - 1);
        if live(ctx, blocks, begin, n - 1) {
            assert forall|i: int| 0 <= i < n && #[trigger] live(ctx, blocks, begin, i) implies begin
                + offset(blocks, i) + blocks[i].size <= begin + offset(blocks, n) by {
                lemma_offset_monotone(blocks, i + 1, n);
            }
        } else if st.gap != begin {
            let i = choose|i: int|
                0 <= i < n - 1 && #[trigger] live(ctx, blocks, begin, i) && st.gap == begin
                    + offset(blocks, i) + blocks[i].size;
            assert(live(ctx, blocks, begin, i));
        }
    }
}

/// The gaps in front of an address at which a sweep meets the next live object, or the end:
/// those that were closed, and the one that it closes now.
proof fn lemma_gaps_grow(
    ctx: &MarkingContext,
    blocks: Seq<Block>,
    begin: int,
    n: int,
    gap: int,
    at: int,
)
    requires
        0 <= n <= blocks.len(),
        behind_live(ctx, blocks, begin, n, gap),
        begin <= gap <= at,
        forall|i: int| 0 <= i < blocks.len() ==> (#[trigger] blocks[i]).size > 0,
        forall|i: int|
            0 <= i < n && #[trigger] live(ctx, blocks, begin, i) ==> begin + offset(blocks, i)
                + blocks[i].size <= gap,
    ensures
        forall|a: int, b: int| #[trigger]
            is_gap(ctx, blocks, begin, at, n, a, b) <==> is_gap(
                ctx,
                blocks,
                begin,
                begin,
                n,
                a,
                b,
            ) || (a == gap && b == at && gap < at),
{
    assert forall|a: int, b: int| #[trigger]
        is_gap(ctx, blocks, begin, at, n, a, b) <==> is_gap(ctx, blocks, begin, begin, n, a, b) || (
    a == gap && b == at && gap < at) by {
        assert(no_live_in(ctx, blocks, begin, n, gap, at));
        if behind_live(ctx, blocks, begin, n, a) {
            assert(a <= gap) by {
                if a != begin {
                    let i = choose|i: int|
                        0 <= i < n && #[trigger] live(ctx, blocks, begin, i) && a == begin
                            + offset(blocks, i) + blocks[i].size;
                    assert(live(ctx, blocks, begin, i));
                }
            }
            assert(begin <= a) by {
                if a != begin {
                    let i = choose|i: int|
                        0 <= i < n && #[trigger] live(ctx, blocks, begin, i) && a == begin
                            + offset(blocks, i) + blocks[i].size;
                    lemma_offset_monotone(blocks, 0, i);
                }
            }
        }
        if live_at(ctx, blocks, begin, n, b) {
            let i = choose|i: int|
                0 <= i < n && #[trigger] live(ctx, blocks, begin, i) && b == begin + offset(
                    blocks,
                    i,
                );
            assert(blocks[i].size > 0);
            assert(b < gap);
        }
        if is_gap(ctx, blocks, begin, at, n, a, b) && b == at && a != gap {
            // The last live object would lie in it.
            assert(a < gap);
            let i = choose|i: int|
                0 <= i < n && #[trigger] live(ctx, blocks, begin, i) && gap == begin + offset(
                    blocks,
                    i,
                ) + blocks[i].size;
            assert(blocks[i].size > 0);
            assert(live(ctx, blocks, begin, i));
            assert(false);
        }
    }
}

/// The gaps between the first blocks are the same with one live block more, but for the one
/// in front of it.
proof fn lemma_gaps_seen(ctx: &MarkingContext, blocks: Seq<Block>, begin: int, n: int)
    requires
        0 < n <= blocks.len(),
        forall|i: int| 0 <= i < blocks.len() ==> (#[trigger] blocks[i]).size > 0,
    ensures
        live(ctx, blocks, begin, n - 1) ==> forall|a: int, b: int| #[trigger]
            is_gap(ctx, blocks, begin, begin, n, a, b) <==> is_gap(
                ctx,
                blocks,
                begin,
                begin + offset(blocks, n - 1),
                n - 1,
                a,
                b,
            ),
        !live(ctx, blocks, begin, n - 1) ==> forall|a: int, b: int| #[trigger]
            is_gap(ctx, blocks, begin, begin, n, a, b) <==> is_gap(
                ctx,
                blocks,
                begin,
                begin,
                n - 1,
                a,
                b,
            ),
{
    let at = begin + offset(blocks, n - 1);
    assert(blocks[n - 1].size > 0);
    lemma_offset_monotone(blocks, 0, n - 1);
    assert forall|a: int| #[trigger] behind_live(ctx, blocks, begin, n - 1, a) implies begin <= a
        <= at && behind_live(ctx, blocks, begin, n, a) by {
        if a != begin {
            let i = choose|i: int|
                0 <= i < n - 1 && #[trigger] live(ctx, blocks, begin, i) && a == begin + offset(
                    blocks,
                    i,
                ) + blocks[i].size;
            lemma_offset_monotone(blocks, 0, i);
            lemma_offset_monotone(blocks, i + 1, n - 1);
            assert(live(ctx, blocks, begin, i));
        }
    }
    assert forall|b: int| #[trigger] live_at(ctx, blocks, begin, n - 1, b) implies begin <= b < at
        && live_at(ctx, blocks, begin, n, b) by {
        let i = choose|i: int|
            0 <= i < n - 1 && #[trigger] live(ctx, blocks, begin, i) && b == begin + offset(
                blocks,
                i,
            );
        lemma_offset_monotone(blocks, 0, i);
        lemma_offset_monotone(blocks, i, n - 1);
        assert(live(ctx, blocks, begin, i));
    }
    assert forall|a: int| #[trigger] behind_live(ctx, blocks, begin, n, a) implies behind_live(
        ctx,
        blocks,
        begin,
        n - 1,
        a,
    ) || (live(ctx, blocks, begin, n - 1) && a == at + blocks[n - 1].size) by {
        if a != begin {
            let i = choose|i: int|
                0 <= i < n && #[trigger] live(ctx, blocks, begin, i) && a == begin + offset(
                    blocks,
                    i,
                ) + blocks[i].size;
            assert(live(ctx, blocks, begin, i));
        }
    }
    assert forall|b: int| #[trigger] live_at(ctx, blocks, begin, n, b) implies live_at(
        ctx,
        blocks,
        begin,
        n - 1,
        b,
    ) || (live(ctx, blocks, begin, n - 1) && b == at) by {
        let i = choose|i: int|
            0 <= i < n && #[trigger] live(ctx, blocks, begin, i) && b == begin + offset(blocks, i);
        assert(live(ctx, blocks, begin, i));
    }
    if live(ctx, blocks, begin, n - 1) {
        assert(live_at(ctx, blocks, begin, n, at));
        assert forall|a: int, b: int| #[trigger]
            is_gap(ctx, blocks, begin, begin, n, a, b) <==> is_gap(
            ctx,
            blocks,
            begin,
            at,
            n - 1,
            a,
            b,
        ) by {
            if is_gap(ctx, blocks, begin, begin, n, a, b) {
                assert(b <= at);
                assert(behind_live(ctx, blocks, begin, n - 1, a));
                assert(no_live_in(ctx, blocks, begin, n - 1, a, b));
            }
            if is_gap(ctx, blocks, begin, at, n - 1, a, b) {
                assert(b <= at);
                assert(no_live_in(ctx, blocks, begin, n, a, b));
            }
        }
    } else {
        assert forall|a: int, b: int| #[trigger]
            is_gap(ctx, blocks, begin, begin, n, a, b) <==> is_gap(
            ctx,
            blocks,
            begin,
            begin,
            n - 1,
            a,
            b,
        ) by {
            assert(no_live_in(ctx, blocks, begin, n, a, b) <==> no_live_in(
                ctx,
                blocks,
                begin,
                n - 1,
                a,
                b,
            ));
        }
    }
}

/// Closing a gap keeps what a sweep has built fitting.
proof fn lemma_fits_closed(
    ctx: &MarkingContext,
    blocks: Seq<Block>,
    begin: int,
    end: int,
    at: int,
    n: int,
    st: SweepState,
)
    requires
        0 <= n <= blocks.len(),
        sweep_fits(ctx, blocks, begin, begin, n, st),
        0 < begin <= st.gap <= at <= end <= usize::MAX,
        end - begin <= u32::MAX,
        log2_floor(end - begin) < st.lists.len(),
        0 <= st.largest,
        behind_live(ctx, blocks, begin, n, st.gap),
        forall|i: int| 0 <= i < blocks.len() ==> (#[trigger] blocks[i]).size > 0,
        forall|i: int|
            0 <= i < n && #[trigger] live(ctx, blocks, begin, i) ==> begin + offset(blocks, i)
                + blocks[i].size <= st.gap,
    ensures
        sweep_fits(ctx, blocks, begin, at, n, gap_closed(st, at)),
{
    let next = gap_closed(st, at);
    lemma_gaps_grow(ctx, blocks, begin, n, st.gap, at);
    if st.gap != at {
        let size = (at - st.gap) as usize;
        lemma_low32(size);
        lemma_log2_monotone(size as int, end - begin);
        lemma_listed(st.lists, st.gap as usize, size);
        assert(is_gap(ctx, blocks, begin, at, n, st.gap, at));
        assert forall|a: int, s: int| #[trigger]
            listed(next.lists, a, s) <==> s >= ENTRY_SIZE && is_gap(
            ctx,
            blocks,
            begin,
            at,
            n,
            a,
            a + s,
        ) by {
            assert(listed(st.lists, a, s) <==> s >= ENTRY_SIZE && is_gap(
                ctx,
                blocks,
                begin,
                begin,
                n,
                a,
                a + s,
            ));
        }
        if next.largest == st.largest && st.largest > 0 {
            let (a, b) = choose|a: int, b: int| #[trigger]
                is_gap(ctx, blocks, begin, begin, n, a, b) && b - a == st.largest;
            assert(is_gap(ctx, blocks, begin, at, n, a, b));
        }
    } else {
        assert forall|a: int, s: int| #[trigger]
            listed(st.lists, a, s) <==> s >= ENTRY_SIZE && is_gap(
            ctx,
            blocks,
            begin,
            at,
            n,
            a,
            a + s,
        ) by {
            assert(is_gap(ctx, blocks, begin, at, n, a, a + s) <==> is_gap(
                ctx,
                blocks,
                begin,
                begin,
                n,
                a,
                a + s,
            ));
        }
        if st.largest > 0 {
            let (a, b) = choose|a: int, b: int| #[trigger]
                is_gap(ctx, blocks, begin, begin, n, a, b) && b - a == st.largest;
            assert(is_gap(ctx, blocks, begin, at, n, a, b));
        }
    }
}

proof fn lemma_fits(
    ctx: &MarkingContext,
    blocks: Seq<Block>,
    begin: int,
    end: int,
    lists: Seq<Seq<Entry>>,
    n: int,
)
    requires
        0 <= n <= blocks.len(),
        0 < begin < end <= usize::MAX,
        end - begin <= u32::MAX,
        fills(blocks, end - begin),
        log2_floor(end - begin) < lists.len(),
        no_entries(lists),
    ensures
        sweep_fits(ctx, blocks, begin, begin, n, swept(ctx, blocks, begin, lists, n)),
    decreases n,
{
    let st = swept(ctx, blocks, begin, lists, n);
    if n <= 0 {
        assert forall|a: int, s: int| !#[trigger] listed(lists, a, s) by {
            if listed(lists, a, s) {
                let (i, j) = choose|i: int, j: int|
                    has_entry(lists, i, j) && (#[trigger] lists[i][j]).addr == a
                        && lists[i][j].size == s;
                assert(lists[i] == Seq::<Entry>::empty());
            }
        }
        assert forall|a: int, b: int| !#[trigger]
            is_gap(ctx, blocks, begin, begin, 0, a, b) by {}
    } else {
        lemma_fits(ctx, blocks, begin, end, lists, n - 1);
        lemma_gap_start(ctx, blocks, begin, lists, n - 1);
        lemma_offset_monotone(blocks, n, blocks.len() as int);
        lemma_offset_monotone(blocks, 0, n - 1);
        assert(blocks[n - 1].size > 0);
        lemma_spares(ctx, blocks, begin, end, lists, n - 1);
        lemma_swept(ctx, blocks, begin, lists, n - 1);
        lemma_gaps_seen(ctx, blocks, begin, n);
        let prev = swept(ctx, blocks, begin, lists, n - 1);
        let at = begin + offset(blocks, n - 1);
        if live(ctx, blocks, begin, n - 1) {
            lemma_fits_closed(ctx, blocks, begin, end, at, n - 1, prev);
            let mid = gap_closed(prev, at);
            assert forall|s: int| #[trigger]
                st.starts.contains(s) <==> exists|i: int|
                0 <= i < n && #[trigger] live(ctx, blocks, begin, i) && s == offset(blocks, i)
                    / 16 by {
                if prev.starts.contains(s) {
                    let i = choose|i: int|
                        0 <= i < n - 1 && #[trigger] live(ctx, blocks, begin, i) && s == offset(
                            blocks,
                            i,
                        ) / 16;
                    assert(live(ctx, blocks, begin, i));
                }
            }
            lemma_same_gaps(ctx, blocks, begin, at, begin, n - 1, n, mid, st);
        } else {
            assert forall|s: int| #[trigger]
                st.starts.contains(s) <==> exists|i: int|
                0 <= i < n && #[trigger] live(ctx, blocks, begin, i) && s == offset(blocks, i)
                    / 16 by {
                if prev.starts.contains(s) {
                    let i = choose|i: int|
                        0 <= i < n - 1 && #[trigger] live(ctx, blocks, begin, i) && s == offset(
                            blocks,
                            i,
                        ) / 16;
                    assert(live(ctx, blocks, begin, i));
                }
            }
            lemma_same_gaps(ctx, blocks, begin, begin, begin, n - 1, n, prev, st);
        }
    }
}

/// Two states with the same lists fit the same gaps.
proof fn lemma_same_gaps(
    ctx: &MarkingContext,
    blocks: Seq<Block>,
    begin: int,
    e: int,
    f: int,
    m: int,
    n: int,
    st: SweepState,
    next: SweepState,
)
    requires
        sweep_fits(ctx, blocks, begin, e, m, st),
        next.lists == st.lists,
        next.largest == st.largest,
        forall|a: int, b: int| #[trigger]
            is_gap(ctx, blocks, begin, f, n, a, b) <==> is_gap(ctx, blocks, begin, e, m, a, b),
    ensures
        forall|a: int, size: int| #[trigger]
            listed(next.lists, a, size) <==> size >= ENTRY_SIZE && is_gap(
                ctx,
                blocks,
                begin,
                f,
                n,
                a,
                a + size,
            ),
        forall|a: int, b: int| #[trigger]
            is_gap(ctx, blocks, begin, f, n, a, b) ==> b - a <= next.largest,
        next.largest > 0 ==> exists|a: int, b: int| #[trigger]
            is_gap(ctx, blocks, begin, f, n, a, b) && b - a == next.largest,
{
    if st.largest > 0 {
        let (a, b) = choose|a: int, b: int| #[trigger]
            is_gap(ctx, blocks, begin, e, m, a, b) && b - a == st.largest;
        assert(is_gap(ctx, blocks, begin, f, n, a, b));
    }
    assert forall|a: int, size: int| #[trigger]
        listed(next.lists, a, size) <==> size >= ENTRY_SIZE && is_gap(
        ctx,
        blocks,
        begin,
        f,
        n,
        a,
        a + size,
    ) by {
        assert(is_gap(ctx, blocks, begin, f, n, a, a + size) <==> is_gap(
            ctx,
            blocks,
            begin,
            e,
            m,
            a,
            a + size,
        ));
    }
}

/// What sweeping a region leaves: objects start exactly where live ones do, so that each of
/// them is found again; their bytes are in use and all others free; and every gap between
/// them is one free entry, unless it is too small for one.
pub proof fn lemma_sweep_exact(
    ctx: &MarkingContext,
    blocks: Seq<Block>,
    begin: int,
    end: int,
    lists: Seq<Seq<Entry>>,
)
    requires
        0 < begin < end <= usize::MAX,
        end - begin <= u32::MAX,
        fills(blocks, end - begin),
        log2_floor(end - begin) < lists.len(),
        no_entries(lists),
    ensures
        ({
            let st = swept_all(ctx, blocks, begin, end, lists);
            let n = blocks.len() as int;
            &&& sweep_fits(ctx, blocks, begin, end, n, st)
            &&& st.free == end - begin - live_bytes(ctx, blocks, begin, n)
        }),
{
    let n = blocks.len() as int;
    lemma_fits(ctx, blocks, begin, end, lists, n);
    lemma_gap_start(ctx, blocks, begin, lists, n);
    lemma_spares(ctx, blocks, begin, end, lists, n);
    lemma_swept(ctx, blocks, begin, lists, n);
    let st = swept(ctx, blocks, begin, lists, n);
    lemma_fits_closed(ctx, blocks, begin, end, end, n, st);
    lemma_sweep_accounts(ctx, blocks, begin, end, lists);
}

/// Sweeps regions and counts those that stay in use and those that become free.
#[derive(Clone, Copy, PartialEq, Eq, Debug, Structural)]
pub struct SweepGarbageClosure {
    pub concurrent: bool,
    pub live: usize,
    pub freed: usize,
}

/// The part of a region that a sweep has built up so far.
spec fn building(region: &HeapRegion, before: &HeapRegion, st: SweepState) -> bool {
    &&& region.wf()
    &&& region.typ == before.typ
    &&& region.index == before.index
    &&& region.begin == before.begin
    &&& region.end == before.end
    &&& region.visited == before.visited
    &&& region.empty_time == before.empty_time
    &&& region.to_sweep == before.to_sweep
    &&& region.used == before.used
    &&& region.last_sweep_free == before.last_sweep_free
    &&& region.object_start_bitmap.same_shape(&before.object_start_bitmap)
    &&& region.object_start_bitmap.slots() == st.starts
    &&& region.free_list.lists() == st.lists
    &&& region.free_list.biggest() == st.biggest
    &&& region.free_list.free_total() == st.listed
    &&& region.free_list.entries() == st.entries
    &&& region.largest_free_list_entry == st.largest
}

impl SweepGarbageClosure {
    /// Makes the gap from `gap` to `end` free.
    fn close_gap(
        region: &mut HeapRegion,
        gap: usize,
        end: usize,
        Ghost(before): Ghost<HeapRegion>,
        Ghost(st): Ghost<SweepState>,
    )
        requires
            building(old(region), &before, st),
            !before.spec_is_empty(),
            gap == st.gap,
            st.gap != end,
            before.begin <= gap < end <= before.end,
            0 <= st.free <= gap - before.begin,
            0 <= st.entries <= st.listed <= st.free,
            0 <= st.largest,
            entries_within(st.lists, before.begin as int, gap as int),
        ensures
            building(final(region), &before, gap_closed(st, end as int)),
            entries_within(
                gap_closed(st, end as int).lists,
                before.begin as int,
                end as int,
            ),
    {
        let size: usize = end - gap;
        proof {
            lemma_low32(size);
            lemma_log2_monotone(size as int, before.spec_size());
        }
        let ghost prev = region.free_list.lists();
        region.free_list.add(gap, size);
        if region.largest_free_list_entry < size {
            region.largest_free_list_entry = size;
        }
        proof {
            let next = region.free_list.lists();
            assert forall|i: int, j: int| has_entry(next, i, j) implies before.begin <= (
            #[trigger] next[i][j]).addr && next[i][j].addr + next[i][j].size <= end by {
                if has_entry(prev, i, j) && next[i][j] == prev[i][j] {
                } else {
                    assert(next[i][j] == (Entry { addr: gap, size }));
                }
            }
        }
    }

    /// Sweeps a region: what lies between its live objects becomes free. Tells
    /// whether nothing in the region is live.
    pub fn sweep_region(region: &mut HeapRegion, blocks: &Vec<Block>, ctx: &MarkingContext) -> (r:
        bool)
        requires
            old(region).wf(),
            !old(region).spec_is_empty(),
            sweepable(ctx, old(region)),
            fills(blocks@, old(region).spec_size()),
        ensures
            final(region).wf(),
            region_swept(
                old(region),
                final(region),
                swept_all(
                    ctx,
                    blocks@,
                    old(region).begin as int,
                    old(region).end as int,
                    emptied(old(region).free_list.lists()),
                ),
            ),
            r == (forall|i: int|
                0 <= i < blocks@.len() ==> !#[trigger] live(
                    ctx,
                    blocks@,
                    old(region).begin as int,
                    i,
                )),
            forall|s: int| #[trigger]
                final(region).object_start_bitmap.slots().contains(s) <==> exists|i: int|
                    0 <= i < blocks@.len() && #[trigger] live(
                        ctx,
                        blocks@,
                        old(region).begin as int,
                        i,
                    ) && s == offset(blocks@, i) / 16,
            forall|a: int, size: int| #[trigger]
                listed(final(region).free_list.lists(), a, size) <==> size >= ENTRY_SIZE && is_gap(
                    ctx,
                    blocks@,
                    old(region).begin as int,
                    old(region).end as int,
                    blocks@.len() as int,
                    a,
                    a + size,
                ),
            final(region).used == live_bytes(
                ctx,
                blocks@,
                old(region).begin as int,
                blocks@.len() as int,
            ),
            final(region).last_sweep_free == final(region).spec_size() - final(region).used,
    {
        let ghost before = *region;
        let ghost lists = emptied(region.free_list.lists());
        let ghost begin = region.begin as int;
        let bottom: usize = region.begin;
        let end: usize = region.end;
        let mut pos: usize = bottom;
        let mut start_of_gap: usize = bottom;
        region.free_list.clear();
        region.largest_free_list_entry = 0;
        region.object_start_bitmap.clear();
        let mut used: usize = 0;
        let mut free: usize = 0;
        proof {
            assert(region.free_list.lists() =~= lists);
            assert(no_entries(lists));
            lemma_region_bits(ctx, &before);
            assert(building(region, &before, swept(ctx, blocks@, begin, lists, 0)));
        }
        if ctx.is_marked_range(bottom, end) {
            let mut i: usize = 0;
            while i < blocks.len()
                invariant
                    before.wf(),
                    !before.spec_is_empty(),
                    sweepable(ctx, &before),
                    fills(blocks@, before.spec_size()),
                    begin == before.begin,
                    bottom == before.begin,
                    end == before.end,
                    lists == emptied(before.free_list.lists()),
                    no_entries(lists),
                    i <= blocks@.len(),
                    pos == begin + offset(blocks@, i as int),
                    building(
                        region,
                        &before,
                        swept(ctx, blocks@, begin, lists, i as int),
                    ),
                    start_of_gap == swept(ctx, blocks@, begin, lists, i as int).gap,
                    used == swept(ctx, blocks@, begin, lists, i as int).used,
                    free == swept(ctx, blocks@, begin, lists, i as int).free,
                decreases blocks@.len() - i,
            {
                let size: usize = blocks[i].size;
                let ghost st = swept(ctx, blocks@, begin, lists, i as int);
                proof {
                    lemma_offset_monotone(blocks@, i + 1, blocks@.len() as int);
                    lemma_offset_monotone(blocks@, 0, i as int);
                    assert(blocks@[i as int].size > 0);
                    lemma_swept(ctx, blocks@, begin, lists, i as int);
                    lemma_spares(ctx, blocks@, begin, end as int, lists, i as int);
                    lemma_header(ctx, &before, pos as int);
                }
                if !blocks[i].is_free && ctx.is_marked(pos) {
                    if start_of_gap != pos {
                        free = free + (pos - start_of_gap);
                        Self::close_gap(region, start_of_gap, pos, Ghost(before), Ghost(st));
                    }
                    used = used + size;
                    region.object_start_bitmap.set_bit(pos);
                    start_of_gap = pos + size;
                }
                pos = pos + size;
                i = i + 1;
            }
        } else {
            proof {
                assert forall|i: int| 0 <= i < blocks@.len() implies !#[trigger] live(
                    ctx,
                    blocks@,
                    begin,
                    i,
                ) by {
                    lemma_offset_monotone(blocks@, i + 1, blocks@.len() as int);
                    lemma_offset_monotone(blocks@, 0, i);
                    assert(blocks@[i].size > 0);
                    lemma_header(ctx, &before, begin + offset(blocks@, i));
                }
                lemma_nothing_live(ctx, blocks@, begin, lists, blocks@.len() as int);
            }
        }
        let ghost st = swept(ctx, blocks@, begin, lists, blocks@.len() as int);
        proof {
            lemma_swept(ctx, blocks@, begin, lists, blocks@.len() as int);
            lemma_spares(ctx, blocks@, begin, end as int, lists, blocks@.len() as int);
        }
        if start_of_gap != end {
            let size: usize = end - start_of_gap;
            Self::close_gap(region, start_of_gap, end, Ghost(before), Ghost(st));
            free = free + size;
        }
        region.set_used(used);
        region.last_sweep_free = free;
        proof {
            lemma_sweep_exact(ctx, blocks@, begin, end as int, lists);
        }
        start_of_gap == bottom
    }
}

/// The mark bits of a region can be looked at as a range.
proof fn lemma_region_bits(ctx: &MarkingContext, region: &HeapRegion)
    requires
        region.wf(),
        sweepable(ctx, region),
    ensures
        ctx.bits().clearable(region.begin as int, region.end as int),
        ctx.bits().ordered(region.begin as int, region.end as int),
{
    ctx.lemma_parts();
    let b = ctx.bits();
    let from = region.begin - b.start();
    let to = region.end - b.start();
    b.lemma_covers_range(region.end - 1);
    lemma_walk_end_aligned(from, to, 16);
    b.lemma_slots();
}

/// The start of a block has a mark bit, within the range of its region, and a bit of
/// the object starts.
proof fn lemma_header(ctx: &MarkingContext, region: &HeapRegion, addr: int)
    requires
        region.wf(),
        sweepable(ctx, region),
        region.begin <= addr < region.end,
    ensures
        ctx.bits().covers(addr),
        ctx.bits().walked(region.begin as int, region.end as int, ctx.bits().slot(addr)),
        region.object_start_bitmap.covers(addr),
{
    ctx.lemma_parts();
    let b = ctx.bits();
    b.lemma_covers_range(addr);
    region.object_start_bitmap.lemma_covers_range(addr);
    lemma_walk_end_aligned(region.begin - b.start(), region.end - b.start(), 16);
}

/// Without a live object nothing happens.
proof fn lemma_nothing_live(
    ctx: &MarkingContext,
    blocks: Seq<Block>,
    begin: int,
    lists: Seq<Seq<Entry>>,
    n: int,
)
    requires
        0 <= n <= blocks.len(),
        forall|i: int| 0 <= i < n ==> !#[trigger] live(ctx, blocks, begin, i),
    ensures
        swept(ctx, blocks, begin, lists, n) == swept(ctx, blocks, begin, lists, 0),
    decreases n,
{
    if n > 0 {
        assert(!live(ctx, blocks, begin, n - 1));
        lemma_nothing_live(ctx, blocks, begin, lists, n - 1);
    }
}

/// The number of regions that a humongous object in region `r` takes.
pub open spec fn taken_regions(contents: Seq<Vec<Block>>, opts: HeapOptions, r: int) -> int {
    (contents[r]@[0].size + opts.region_size_bytes - 1) / opts.region_size_bytes as int
}

/// Whether region `r` can be swept: what it holds is known, and it has mark bits.
pub open spec fn can_sweep(
    regions: Seq<HeapRegion>,
    contents: Seq<Vec<Block>>,
    ctx: &MarkingContext,
    opts: HeapOptions,
    r: int,
) -> bool {
    &&& 0 <= r < regions.len()
    &&& contents.len() == regions.len()
    &&& sweepable(ctx, &regions[r])
    &&& regions[r].typ == RegionState::Regular ==> fills(contents[r]@, regions[r].spec_size())
    &&& regions[r].typ == RegionState::HumongousStart ==> {
        &&& contents[r]@.len() > 0
        &&& 0 < contents[r]@[0].size
        &&& contents[r]@[0].size + opts.region_size_bytes <= usize::MAX
        &&& r + taken_regions(contents, opts, r) <= regions.len()
    }
}

/// The regions after the `count` ones from `start` have become trash.
pub open spec fn trashed(regions: Seq<HeapRegion>, start: int, count: int) -> Seq<HeapRegion> {
    Seq::new(
        regions.len(),
        |i: int|
            if start <= i < start + count {
                HeapRegion { typ: RegionState::Trash, ..regions[i] }
            } else {
                regions[i]
            },
    )
}

/// Makes the `required` regions from `start` trash, the last one first.
pub fn trash_humongous_region_at(regions: &mut Vec<HeapRegion>, start: usize, required: usize)
    requires
        required >= 1,
        start + required <= old(regions)@.len(),
    ensures
        final(regions)@ == trashed(old(regions)@, start as int, required as int),
{
    let ghost before = regions@;
    assert(regions.len() <= usize::MAX);
    let mut index: usize = start + required - 1;
    let mut n: usize = 0;
    while n < required
        invariant
            n <= required,
            start + required <= regions@.len(),
            regions@.len() == before.len(),
            n < required ==> index == start + required - 1 - n,
            regions@ == trashed(before, start + required - n, n as int),
        decreases required - n,
    {
        regions[index].make_trash();
        index = index.wrapping_sub(1);
        n = n + 1;
        assert(regions@ =~= trashed(before, start + required - n, n as int));
    }
}

/// What sweeping a region came to.
#[derive(Clone, Copy, PartialEq, Eq, Debug, Structural)]
pub enum Swept {
    /// A humongous object was not marked: its regions are trash now.
    HumongousDead(usize),
    /// A humongous object of so many regions is marked.
    HumongousLive(usize),
    /// The region belongs to a humongous object that starts in front of it.
    HumongousPart,
    /// Nothing in the region is live: it is trash now.
    Dead,
    /// Something in the region is live.
    Live,
    /// There is nothing to sweep.
    Nothing,
}

/// What sweeping region `r` comes to.
pub open spec fn sweep_outcome(
    regions: Seq<HeapRegion>,
    contents: Seq<Vec<Block>>,
    ctx: &MarkingContext,
    opts: HeapOptions,
    r: int,
) -> Swept {
    if regions[r].typ == RegionState::HumongousStart {
        if ctx.marked(regions[r].begin as int) {
            Swept::HumongousLive(taken_regions(contents, opts, r) as usize)
        } else {
            Swept::HumongousDead(taken_regions(contents, opts, r) as usize)
        }
    } else if regions[r].typ == RegionState::HumongousCont {
        Swept::HumongousPart
    } else if regions[r].typ == RegionState::Regular {
        if forall|i: int|
            0 <= i < contents[r]@.len() ==> !#[trigger] live(
                ctx,
                contents[r]@,
                regions[r].begin as int,
                i,
            ) {
            Swept::Dead
        } else {
            Swept::Live
        }
    } else {
        Swept::Nothing
    }
}

/// What sweeping region `r` makes of the regions.
pub open spec fn sweep_effect(
    before: Seq<HeapRegion>,
    after: Seq<HeapRegion>,
    contents: Seq<Vec<Block>>,
    ctx: &MarkingContext,
    opts: HeapOptions,
    r: int,
) -> bool {
    match sweep_outcome(before, contents, ctx, opts, r) {
        Swept::HumongousDead(n) => after == trashed(before, r, n as int),
        Swept::Dead => {
            &&& after == before.update(r, after[r])
            &&& after[r].typ == RegionState::Trash
            &&& region_swept(
                &before[r],
                &HeapRegion { typ: before[r].typ, ..after[r] },
                swept_all(
                    ctx,
                    contents[r]@,
                    before[r].begin as int,
                    before[r].end as int,
                    emptied(before[r].free_list.lists()),
                ),
            )
        },
        Swept::Live => {
            &&& after == before.update(r, after[r])
            &&& region_swept(
                &before[r],
                &after[r],
                swept_all(
                    ctx,
                    contents[r]@,
                    before[r].begin as int,
                    before[r].end as int,
                    emptied(before[r].free_list.lists()),
                ),
            )
        },
        _ => after == before,
    }
}

/// Sweeps region `r`.
pub fn sweep_one(
    regions: &mut Vec<HeapRegion>,
    r: usize,
    contents: &Vec<Vec<Block>>,
    ctx: &MarkingContext,
    opts: &HeapOptions,
) -> (out: Swept)
    requires
        regions_wf(old(regions)@, *opts),
        can_sweep(old(regions)@, contents@, ctx, *opts, r as int),
    ensures
        regions_wf(final(regions)@, *opts),
        final(regions)@.len() == old(regions)@.len(),
        out == sweep_outcome(old(regions)@, contents@, ctx, *opts, r as int),
        sweep_effect(old(regions)@, final(regions)@, contents@, ctx, *opts, r as int),
        forall|i: int|
            0 <= i < old(regions)@.len() ==> {
                &&& (#[trigger] final(regions)@[i]).begin == old(regions)@[i].begin
                &&& final(regions)@[i].end == old(regions)@[i].end
                &&& final(regions)@[i].typ == old(regions)@[i].typ || final(regions)@[i].typ
                    == RegionState::Trash
            },
{
    let ghost before = regions@;
    proof {
        lemma_header(ctx, &regions@[r as int], regions@[r as int].begin as int);
    }
    if regions[r].is_humongous_start() {
        let obj: usize = regions[r].bottom();
        let required: usize = opts.required_regions(contents[r][0].size);
        proof {
            let s = contents@[r as int]@[0].size as int;
            let n = opts.region_size_bytes as int;
            assert((s + n - 1) / n >= 1) by (nonlinear_arith)
                requires
                    s > 0,
                    n > 0,
            ;
        }
        if ctx.is_marked(obj) {
            Swept::HumongousLive(required)
        } else {
            trash_humongous_region_at(regions, r, required);
            Swept::HumongousDead(required)
        }
    } else if regions[r].is_humongous_cont() {
        Swept::HumongousPart
    } else if regions[r].is_regular() {
        let dead: bool = SweepGarbageClosure::sweep_region(&mut regions[r], &contents[r], ctx);
        if dead {
            regions[r].make_trash();
            assert(regions@ =~= before.update(r as int, regions@[r as int]));
            Swept::Dead
        } else {
            assert(regions@ =~= before.update(r as int, regions@[r as int]));
            Swept::Live
        }
    } else {
        Swept::Nothing
    }
}

impl SweepGarbageClosure {
    /// Sweeps a region that has to be swept, and counts what it came to.
    pub fn heap_region_do(
        &mut self,
        regions: &mut Vec<HeapRegion>,
        r: usize,
        contents: &Vec<Vec<Block>>,
        ctx: &MarkingContext,
        opts: &HeapOptions,
    )
        requires
            regions_wf(old(regions)@, *opts),
            can_sweep(old(regions)@, contents@, ctx, *opts, r as int),
            old(self).live < usize::MAX,
            old(self).freed < usize::MAX,
            old(regions)@[r as int].typ == RegionState::HumongousStart ==> old(self).freed
                + taken_regions(contents@, *opts, r as int) <= usize::MAX,
        ensures
            regions_wf(final(regions)@, *opts),
            final(self).concurrent == old(self).concurrent,
            !old(regions)@[r as int].to_sweep ==> final(regions)@ == old(regions)@ && *final(self)
                == *old(self),
            old(regions)@[r as int].to_sweep ==> {
                let turned = old(regions)@.update(
                    r as int,
                    HeapRegion { to_sweep: false, ..old(regions)@[r as int] },
                );
                let out = sweep_outcome(turned, contents@, ctx, *opts, r as int);
                &&& sweep_effect(turned, final(regions)@, contents@, ctx, *opts, r as int)
                &&& final(self).freed == old(self).freed + match out {
                    Swept::HumongousDead(n) => n as int,
                    Swept::Dead => 1,
                    _ => 0,
                }
                &&& final(self).live == old(self).live + match out {
                    Swept::HumongousLive(_) => 1,
                    Swept::HumongousPart => 1int,
                    Swept::Live => 1,
                    _ => 0,
                }
            },
    {
        if regions[r].to_sweep {
            let ghost before = regions@;
            regions[r].to_sweep = false;
            assert(regions@ =~= before.update(
                r as int,
                HeapRegion { to_sweep: false, ..before[r as int] },
            ));
            match sweep_one(regions, r, contents, ctx, opts) {
                Swept::HumongousDead(n) => {
                    self.freed = self.freed + n;
                },
                Swept::HumongousLive(_n) => {
                    self.live = self.live + 1;
                },
                Swept::HumongousPart => {
                    self.live = self.live + 1;
                },
                Swept::Dead => {
                    self.freed = self.freed + 1;
                },
                Swept::Live => {
                    self.live = self.live + 1;
                },
                Swept::Nothing => {},
            }
        }
    }
}

/// What a step of a sweep came to.
#[derive(Clone, Copy, PartialEq, Eq, Debug, Structural)]
pub enum SweepStep {
    /// No region is left.
    Done,
    /// Collection has been cancelled; the region that was taken is not swept.
    Cancelled,
    /// A region has been swept.
    Region,
}

/// Sweeps the regions of a queue.
pub struct Sweep {
    pub unswept: SegQueue<usize>,
    pub live: usize,
}

/// The number of regions in use that sweeping a region adds.
pub open spec fn live_added(out: Swept) -> int {
    match out {
        Swept::HumongousLive(n) => n as int,
        Swept::Live => 1,
        _ => 0,
    }
}

impl Sweep {
    /// The regions that are still to be swept, in order.
    pub open spec fn unswept(&self) -> Seq<usize> {
        queue_items(self.unswept)
    }

    pub fn new() -> (r: Self)
        ensures
            r.unswept() == Seq::<usize>::empty(),
            r.live == 0,
    {
        Sweep { unswept: queue_new(), live: 0 }
    }

    pub fn add_region(&mut self, region: usize)
        ensures
            final(self).unswept() == old(self).unswept().push(region),
            final(self).live == old(self).live,
    {
        queue_push(&mut self.unswept, region);
    }

    /// Takes a region and sweeps it, unless collection has been cancelled.
    pub fn step<const CANCELLABLE: bool>(
        &mut self,
        regions: &mut Vec<HeapRegion>,
        contents: &Vec<Vec<Block>>,
        ctx: &MarkingContext,
        opts: &HeapOptions,
        cancelled: bool,
    ) -> (r: SweepStep)
        requires
            regions_wf(old(regions)@, *opts),
            old(self).unswept().len() > 0 && !(CANCELLABLE && cancelled) ==> {
                let n = old(self).unswept()[0] as int;
                &&& can_sweep(old(regions)@, contents@, ctx, *opts, n)
                &&& old(self).live + live_added(
                    sweep_outcome(old(regions)@, contents@, ctx, *opts, n),
                ) <= usize::MAX
            },
        ensures
            regions_wf(final(regions)@, *opts),
            final(regions)@.len() == old(regions)@.len(),
            old(self).unswept().len() == 0 ==> r is Done && final(self).unswept() == old(self).unswept() && final(self).live == old(self).live && final(regions)@ == old(regions)@,
            old(self).unswept().len() > 0 ==> final(self).unswept() == old(self).unswept().skip(1),
            old(self).unswept().len() > 0 && CANCELLABLE && cancelled ==> r is Cancelled && final(self).live == old(self).live && final(regions)@ == old(regions)@,
            old(self).unswept().len() > 0 && !(CANCELLABLE && cancelled) ==> {
                let n = old(self).unswept()[0] as int;
                &&& r is Region
                &&& sweep_effect(old(regions)@, final(regions)@, contents@, ctx, *opts, n)
                &&& final(self).live == old(self).live + live_added(
                    sweep_outcome(old(regions)@, contents@, ctx, *opts, n),
                )
                &&& forall|i: int|
                    0 <= i < old(regions)@.len() ==> {
                        &&& (#[trigger] final(regions)@[i]).begin == old(regions)@[i].begin
                        &&& final(regions)@[i].end == old(regions)@[i].end
                        &&& final(regions)@[i].typ == old(regions)@[i].typ || final(regions)@[i].typ == RegionState::Trash
                    }
            },
    {
        match queue_pop(&mut self.unswept) {
            None => SweepStep::Done,
            Some(region) => {
                if CANCELLABLE && cancelled {
                    return SweepStep::Cancelled;
                }
                match sweep_one(regions, region, contents, ctx, opts) {
                    Swept::HumongousLive(n) => {
                        self.live = self.live + n;
                    },
                    Swept::Live => {
                        self.live = self.live + 1;
                    },
                    _ => {},
                }
                SweepStep::Region
            },
        }
    }

    /// Sweeps all regions that are left. The result is the number of regions in use.
    pub fn run(
        &mut self,
        regions: &mut Vec<HeapRegion>,
        contents: &Vec<Vec<Block>>,
        ctx: &MarkingContext,
        opts: &HeapOptions,
    ) -> (r: usize)
        requires
            regions_wf(old(regions)@, *opts),
            forall|k: int|
                0 <= k < old(self).unswept().len() ==> can_sweep(
                    old(regions)@,
                    contents@,
                    ctx,
                    *opts,
                    (#[trigger] old(self).unswept()[k]) as int,
                ),
            old(self).live + old(self).unswept().len() * old(regions)@.len() + old(self).unswept().len() <= usize::MAX,
        ensures
            regions_wf(final(regions)@, *opts),
            final(self).unswept() == Seq::<usize>::empty(),
            r == final(self).live,
            exists|trace: Seq<Seq<HeapRegion>>|
                #![trigger sweep_trace(trace, old(self).unswept(), contents@, ctx, *opts)]
                {
                    &&& sweep_trace(trace, old(self).unswept(), contents@, ctx, *opts)
                    &&& trace[0] == old(regions)@
                    &&& trace.last() == final(regions)@
                    &&& r == old(self).live + live_total(
                        trace,
                        old(self).unswept(),
                        contents@,
                        ctx,
                        *opts,
                        old(self).unswept().len() as int,
                    )
                },
    {
        let ghost before = *self;
        let ghost start = regions@;
        let ghost items = self.unswept();
        let ghost mut trace: Seq<Seq<HeapRegion>> = seq![regions@];
        let ghost mut k: int = 0;
        let mut more: bool = true;
        while more
            invariant
                items == before.unswept(),
                regions_wf(regions@, *opts),
                regions@.len() == start.len(),
                0 <= k <= items.len(),
                !more ==> k == items.len(),
                self.unswept() == items.skip(k),
                trace.len() == k + 1,
                trace[0] == start,
                trace[k] == regions@,
                sweep_trace(trace, items.take(k), contents@, ctx, *opts),
                self.live == before.live + live_total(trace, items, contents@, ctx, *opts, k),
                live_total(trace, items, contents@, ctx, *opts, k) <= k * start.len() + k,
                before.live + items.len() * start.len() + items.len() <= usize::MAX,
                forall|i: int|
                    0 <= i < items.len() ==> can_sweep(
                        regions@,
                        contents@,
                        ctx,
                        *opts,
                        (#[trigger] items[i]) as int,
                    ),
            decreases items.len() - k, (if more { 1int } else { 0int }),
        {
            let ghost now = regions@;
            let ghost live = self.live;
            proof {
                if k < items.len() {
                    assert(self.unswept()[0] == items[k]);
                    let n = items[k] as int;
                    let out = sweep_outcome(regions@, contents@, ctx, *opts, n);
                    assert(can_sweep(regions@, contents@, ctx, *opts, items[k] as int));
                    assert(live_added(out) <= start.len() + 1);
                    assert(k * start.len() + start.len() + 1 + k <= items.len() * start.len()
                        + items.len()) by (nonlinear_arith)
                        requires
                            k + 1 <= items.len(),
                            start.len() >= 0,
                    ;
                }
            }
            match self.step::<false>(regions, contents, ctx, opts, false) {
                SweepStep::Region => {
                    proof {
                        let n = items[k] as int;
                        let longer = trace.push(regions@);
                        lemma_live_total(trace, regions@, items, contents@, ctx, *opts, k);
                        assert(sweep_trace(longer, items.take(k + 1), contents@, ctx, *opts)) by {
                            assert forall|i: int| 0 <= i < k + 1 implies #[trigger] sweep_effect(
                                longer[i],
                                longer[i + 1],
                                contents@,
                                ctx,
                                *opts,
                                items.take(k + 1)[i] as int,
                            ) by {
                                if i < k {
                                    assert(items.take(k)[i] == items.take(k + 1)[i]);
                                    assert(sweep_effect(
                                        trace[i],
                                        trace[i + 1],
                                        contents@,
                                        ctx,
                                        *opts,
                                        items.take(k)[i] as int,
                                    ));
                                }
                            }
                        }
                        assert(k * start.len() + start.len() == (k + 1) * start.len())
                            by (nonlinear_arith);
                        assert forall|i: int| 0 <= i < items.len() implies can_sweep(
                            regions@,
                            contents@,
                            ctx,
                            *opts,
                            (#[trigger] items[i]) as int,
                        ) by {
                            assert(can_sweep(now, contents@, ctx, *opts, items[i] as int));
                        }
                        trace = longer;
                        k = k + 1;
                        assert(self.unswept() =~= items.skip(k));
                    }
                },
                _ => {
                    more = false;
                },
            }
        }
        proof {
            assert(items.take(k) =~= items);
            assert(self.unswept() =~= Seq::<usize>::empty());
            assert(trace.last() == trace[k]);
        }
        self.live
    }
}

/// Whether each state comes from the one before it by sweeping a region.
pub open spec fn sweep_trace(
    trace: Seq<Seq<HeapRegion>>,
    items: Seq<usize>,
    contents: Seq<Vec<Block>>,
    ctx: &MarkingContext,
    opts: HeapOptions,
) -> bool {
    &&& trace.len() == items.len() + 1
    &&& forall|i: int|
        0 <= i < items.len() ==> #[trigger] sweep_effect(
            trace[i],
            trace[i + 1],
            contents,
            ctx,
            opts,
            items[i] as int,
        )
}

/// The number of regions in use that the first `n` sweeps add.
pub open spec fn live_total(
    trace: Seq<Seq<HeapRegion>>,
    items: Seq<usize>,
    contents: Seq<Vec<Block>>,
    ctx: &MarkingContext,
    opts: HeapOptions,
    n: int,
) -> int
    decreases n,
{
    if n <= 0 {
        0
    } else {
        live_total(trace, items, contents, ctx, opts, n - 1) + live_added(
            sweep_outcome(trace[n - 1], contents, ctx, opts, items[n - 1] as int),
        )
    }
}

proof fn lemma_live_total(
    trace: Seq<Seq<HeapRegion>>,
    next: Seq<HeapRegion>,
    items: Seq<usize>,
    contents: Seq<Vec<Block>>,
    ctx: &MarkingContext,
    opts: HeapOptions,
    n: int,
)
    requires
        0 <= n < trace.len(),
    ensures
        live_total(trace.push(next), items, contents, ctx, opts, n) == live_total(
            trace,
            items,
            contents,
            ctx,
            opts,
            n,
        ),
    decreases n,
{
    if n > 0 {
        lemma_live_total(trace, next, items, contents, ctx, opts, n - 1);
        assert(trace.push(next)[n - 1] == trace[n - 1]);
    }
}

} // verus!
