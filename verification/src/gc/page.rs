//! Pages of blocks. A page knows which runs of its blocks are free; after marking,
//! the runs are made anew from the mark bits.

use vstd::arithmetic::power2::pow2;
use vstd::prelude::*;

use super::free_runs::{
    appended, appended_bits, given, taken, FreeListStore, GcFl, GcFreeList, StoreView,
};
use crate::bits::{set_cell_bit, set_slots, test_cell_bit};
use crate::heap::lemma_shift_is_pow2;

verus! {

/// The blocks of a page. Where blocks can be joined, `sizes` holds for the first block
/// of every object the number of its blocks, and zero for the others.
pub struct GcAllocatorPageData {
    pub block_size: usize,
    pub max_blocks: usize,
    pub first_block: usize,
    pub need_flush: bool,
    pub free: GcFreeList,
    pub sizes: Option<Vec<u8>>,
}

/// A page: where it lies, its mark bits after the last marking, and its blocks.
pub struct GcPHeader {
    pub base: u64,
    pub bmp: Option<Vec<u8>>,
    pub page_size: usize,
    pub page_kind: i32,
    pub alloc: GcAllocatorPageData,
}

/// What the contracts say of a page.
#[verifier::ext_equal]
pub struct PageView {
    pub base: u64,
    pub page_size: int,
    pub page_kind: i32,
    pub block_size: int,
    pub max_blocks: int,
    pub first_block: int,
    pub need_flush: bool,
    pub current: int,
    pub bits: int,
    pub runs: Seq<GcFl>,
    pub sizes: Option<Seq<u8>>,
    pub bmp: Option<Seq<u8>>,
}

/// What a vector holds, if there is one.
pub open spec fn held(v: Option<Vec<u8>>) -> Option<Seq<u8>> {
    match v {
        Some(v) => Some(v@),
        None => None,
    }
}

impl GcPHeader {
    pub open spec fn view(&self) -> PageView {
        PageView {
            base: self.base,
            page_size: self.page_size as int,
            page_kind: self.page_kind,
            block_size: self.alloc.block_size as int,
            max_blocks: self.alloc.max_blocks as int,
            first_block: self.alloc.first_block as int,
            need_flush: self.alloc.need_flush,
            current: self.alloc.free.current as int,
            bits: self.alloc.free.size_bits as int,
            runs: self.alloc.free.data@,
            sizes: held(self.alloc.sizes),
            bmp: held(self.bmp),
        }
    }
}

/// A page after its runs have been made anew, and what becomes of the store.
pub open spec fn flush_view(v: PageView, store: StoreView) -> (PageView, StoreView) {
    let end = flushed(
        FlushState {
            bid: v.first_block,
            runs: Seq::empty(),
            reused: 0,
            sizes: v.sizes,
            bits: v.bits,
            store: taken(store, v.bits),
        },
        v.runs.skip(v.current),
        v.bmp->0,
        v.max_blocks,
        (v.max_blocks - v.first_block) as nat,
    );
    (
        PageView {
            runs: end.runs,
            bits: end.bits,
            current: 0,
            sizes: end.sizes,
            need_flush: false,
            ..v
        },
        given(end.store, v.bits),
    )
}

/// The number of blocks that block `b` takes, by the sizes of the page.
pub open spec fn span(sizes: Option<Vec<u8>>, b: int) -> int {
    match sizes {
        Some(s) => if s@[b] == 0 {
            1
        } else {
            s@[b] as int
        },
        None => 1,
    }
}

impl GcAllocatorPageData {
    /// Runs and objects lie within the page.
    pub open spec fn wf(&self) -> bool {
        &&& self.first_block <= self.max_blocks <= 0xffff
        &&& self.free.wf()
        &&& self.free.current <= self.free.data@.len() <= 0xffff
        &&& forall|i: int|
            0 <= i < self.free.data@.len() ==> (#[trigger] self.free.data@[i]).end()
                <= self.max_blocks
        &&& self.sizes is Some ==> self.sizes->0@.len() == self.max_blocks
        &&& forall|b: int|
            0 <= b < self.max_blocks ==> b + #[trigger] span(self.sizes, b) <= self.max_blocks
    }
}

/// How far the runs have been made anew.
#[verifier::ext_equal]
pub struct FlushState {
    /// The next block to look at.
    pub bid: int,
    /// The runs so far.
    pub runs: Seq<GcFl>,
    /// The number of old runs that have been taken over.
    pub reused: int,
    /// The sizes of the objects.
    pub sizes: Option<Seq<u8>>,
    /// The exponent of the buffer.
    pub bits: int,
    pub store: StoreView,
}

/// The state after the `count` blocks from `pos` on have been found free: they are
/// joined to the last run if it ends there.
pub open spec fn joined(st: FlushState, pos: int, count: int) -> FlushState {
    if st.runs.len() > 0 && st.runs.last().end() == pos {
        let last = st.runs.last();
        FlushState {
            runs: st.runs.update(
                st.runs.len() - 1,
                GcFl { pos: last.pos, count: (last.count + count) as u16 },
            ),
            ..st
        }
    } else {
        FlushState {
            runs: st.runs.push(GcFl { pos: pos as u16, count: count as u16 }),
            bits: appended_bits(st.runs.len() as int, st.bits),
            store: appended(st.store, st.runs.len() as int, st.bits),
            ..st
        }
    }
}

/// The number of blocks from `b` on, by the sizes.
pub open spec fn span_of(sizes: Option<Seq<u8>>, b: int) -> int {
    match sizes {
        Some(s) => if s[b] == 0 {
            1
        } else {
            s[b] as int
        },
        None => 1,
    }
}

/// The state after the old run that starts at the next block, if one does, has been
/// taken over.
pub open spec fn run_reused(st: FlushState, old_runs: Seq<GcFl>) -> FlushState {
    if st.reused < old_runs.len() && old_runs[st.reused].pos == st.bid {
        let run = old_runs[st.reused];
        let j = joined(st, run.pos as int, run.count as int);
        FlushState { bid: j.runs.last().end(), reused: st.reused + 1, ..j }
    } else {
        st
    }
}

/// The state after the next block has been looked at: the object there is free if it
/// is not marked.
pub open spec fn block_flushed(st: FlushState, bmp: Seq<u8>) -> FlushState {
    let count = span_of(st.sizes, st.bid);
    let st1 = if set_slots(bmp).contains(st.bid) {
        st
    } else {
        let s = FlushState {
            sizes: match st.sizes {
                Some(s) => Some(s.update(st.bid, 0u8)),
                None => None,
            },
            ..st
        };
        joined(s, st.bid, count)
    };
    FlushState { bid: st.bid + count, ..st1 }
}

/// The state at the end of the page, `fuel` steps at most from here.
pub open spec fn flushed(
    st: FlushState,
    old_runs: Seq<GcFl>,
    bmp: Seq<u8>,
    max_blocks: int,
    fuel: nat,
) -> FlushState
    decreases fuel,
{
    if fuel == 0 || st.bid >= max_blocks {
        st
    } else {
        let st1 = run_reused(st, old_runs);
        if st1.bid >= max_blocks {
            st1
        } else {
            flushed(block_flushed(st1, bmp), old_runs, bmp, max_blocks, (fuel - 1) as nat)
        }
    }
}

/// Where making the runs anew starts.
pub open spec fn flush_start(p: GcAllocatorPageData, store: StoreView) -> FlushState {
    FlushState {
        bid: p.first_block as int,
        runs: Seq::empty(),
        reused: 0,
        sizes: match p.sizes {
            Some(s) => Some(s@),
            None => None,
        },
        bits: p.free.size_bits as int,
        store: taken(store, p.free.size_bits as int),
    }
}

/// Where it ends.
pub open spec fn flush_end(p: GcAllocatorPageData, bmp: Seq<u8>, store: StoreView) -> FlushState {
    flushed(
        flush_start(p, store),
        p.free.left(),
        bmp,
        p.max_blocks as int,
        (p.max_blocks - p.first_block) as nat,
    )
}

/// Runs lie between two blocks, in order, and no two touch.
pub open spec fn runs_ordered(runs: Seq<GcFl>, from: int, to: int) -> bool {
    &&& forall|i: int|
        0 <= i < runs.len() ==> from <= (#[trigger] runs[i]).pos && runs[i].end() <= to
    &&& forall|i: int, j: int|
        0 <= i < j < runs.len() ==> (#[trigger] runs[i]).end() < (#[trigger] runs[j]).pos
}

/// Whether a block belongs to one of the runs.
pub open spec fn in_runs(runs: Seq<GcFl>, b: int) -> bool {
    exists|i: int| 0 <= i < runs.len() && (#[trigger] runs[i]).pos <= b < runs[i].end()
}

/// What holds of the state while runs are made anew.
pub open spec fn flush_ok(st: FlushState, max_blocks: int, first: int) -> bool {
    &&& 0 <= first <= st.bid <= max_blocks <= 0xffff
    &&& runs_ordered(st.runs, first, st.bid)
    &&& st.runs.len() <= st.bid - first
    &&& 0 <= st.reused
    &&& st.sizes is Some ==> st.sizes->0.len() == max_blocks
    &&& forall|b: int|
        0 <= b < max_blocks ==> b + #[trigger] span_of(st.sizes, b) <= max_blocks
}

/// Whether no run is empty.
pub open spec fn runs_positive(runs: Seq<GcFl>) -> bool {
    forall|i: int| 0 <= i < runs.len() ==> (#[trigger] runs[i]).count > 0
}

/// Joining blocks behind the last run keeps the runs in order.
proof fn lemma_joined(st: FlushState, pos: int, count: int, first: int)
    requires
        0 <= first <= pos,
        count >= 0,
        pos + count <= 0xffff,
        runs_ordered(st.runs, first, pos),
    ensures
        ({
            let j = joined(st, pos, count);
            &&& runs_ordered(j.runs, first, pos + count)
            &&& j.runs.len() > 0
            &&& j.runs.last().end() == pos + count
            &&& j.runs.len() <= st.runs.len() + 1
            &&& st.runs.len() > 0 && st.runs.last().end() == pos ==> j.runs.len()
                == st.runs.len()
            &&& runs_positive(st.runs) && count > 0 ==> runs_positive(j.runs)
            &&& j.bid == st.bid
            &&& j.reused == st.reused
            &&& j.sizes == st.sizes
            &&& forall|b: int| #[trigger]
                in_runs(j.runs, b) <==> in_runs(st.runs, b) || pos <= b < pos + count
        }),
{
    let j = joined(st, pos, count);
    if st.runs.len() > 0 && st.runs.last().end() == pos {
        let n = st.runs.len() - 1;
        assert(st.runs[n] == st.runs.last());
        assert forall|b: int| #[trigger] in_runs(j.runs, b) <==> in_runs(st.runs, b) || pos <= b
            < pos + count by {
            if in_runs(j.runs, b) {
                let i = choose|i: int|
                    0 <= i < j.runs.len() && (#[trigger] j.runs[i]).pos <= b < j.runs[i].end();
                if i < n {
                    assert(st.runs[i].pos <= b < st.runs[i].end());
                } else if b < pos {
                    assert(st.runs[n].pos <= b < st.runs[n].end());
                }
            }
            if in_runs(st.runs, b) {
                let i = choose|i: int|
                    0 <= i < st.runs.len() && (#[trigger] st.runs[i]).pos <= b
                        < st.runs[i].end();
                assert(j.runs[i].pos <= b < j.runs[i].end());
            }
            if pos <= b < pos + count {
                assert(j.runs[n].pos <= b < j.runs[n].end());
            }
        }
    } else {
        let n = st.runs.len() as int;
        if n > 0 {
            assert(st.runs[n - 1] == st.runs.last());
        }
        assert forall|i: int, k: int| 0 <= i < k < j.runs.len() implies (
        #[trigger] j.runs[i]).end() < (#[trigger] j.runs[k]).pos by {
            if k == n && i < n - 1 {
                assert(st.runs[i].end() < st.runs[n - 1].pos);
                assert(st.runs[n - 1].end() <= pos);
            }
        }
        assert forall|b: int| #[trigger] in_runs(j.runs, b) <==> in_runs(st.runs, b) || pos <= b
            < pos + count by {
            if in_runs(j.runs, b) {
                let i = choose|i: int|
                    0 <= i < j.runs.len() && (#[trigger] j.runs[i]).pos <= b < j.runs[i].end();
                if i < n {
                    assert(st.runs[i].pos <= b < st.runs[i].end());
                }
            }
            if in_runs(st.runs, b) {
                let i = choose|i: int|
                    0 <= i < st.runs.len() && (#[trigger] st.runs[i]).pos <= b
                        < st.runs[i].end();
                assert(j.runs[i].pos <= b < j.runs[i].end());
            }
            if pos <= b < pos + count {
                assert(j.runs[n].pos <= b < j.runs[n].end());
            }
        }
    }
}

/// One step: an old run is taken over and a block is looked at.
pub open spec fn flush_step(st: FlushState, old_runs: Seq<GcFl>, bmp: Seq<u8>) -> FlushState {
    block_flushed(run_reused(st, old_runs), bmp)
}

proof fn lemma_run_reused(st: FlushState, old_runs: Seq<GcFl>, max_blocks: int, first: int)
    requires
        flush_ok(st, max_blocks, first),
        st.bid < max_blocks,
        forall|i: int| 0 <= i < old_runs.len() ==> (#[trigger] old_runs[i]).end() <= max_blocks,
    ensures
        ({
            let r = run_reused(st, old_runs);
            &&& st.bid <= r.bid <= max_blocks
            &&& runs_ordered(r.runs, first, r.bid)
            &&& r.sizes == st.sizes
            &&& r.runs.len() <= st.runs.len() + 1
            &&& r.runs.len() > st.runs.len() ==> r.runs.last().end() == r.bid
            &&& r.bid > st.bid ==> r.runs.len() <= r.bid - first
            &&& runs_positive(st.runs) && runs_positive(old_runs) ==> runs_positive(r.runs)
            &&& 0 <= r.reused
            &&& forall|b: int| #[trigger]
                in_runs(r.runs, b) ==> in_runs(st.runs, b) || in_runs(old_runs, b)
            &&& forall|b: int| #[trigger] in_runs(st.runs, b) ==> in_runs(r.runs, b)
            &&& forall|b: int| st.bid <= b < r.bid ==> #[trigger] in_runs(r.runs, b)
        }),
{
    if st.reused < old_runs.len() && old_runs[st.reused].pos == st.bid {
        let run = old_runs[st.reused];
        lemma_joined(st, run.pos as int, run.count as int, first);
        let r = run_reused(st, old_runs);
        assert forall|b: int| #[trigger] in_runs(r.runs, b) implies in_runs(st.runs, b) || in_runs(
            old_runs,
            b,
        ) by {
            if !in_runs(st.runs, b) {
                assert(run.pos <= b < run.end());
            }
        }
    }
}

proof fn lemma_block_flushed(st: FlushState, bmp: Seq<u8>, max_blocks: int, first: int)
    requires
        0 <= first <= st.bid < max_blocks <= 0xffff,
        runs_ordered(st.runs, first, st.bid),
        0 <= st.reused,
        st.sizes is Some ==> st.sizes->0.len() == max_blocks,
        forall|b: int|
            0 <= b < max_blocks ==> b + #[trigger] span_of(st.sizes, b) <= max_blocks,
    ensures
        ({
            let r = block_flushed(st, bmp);
            &&& st.bid < r.bid <= max_blocks
            &&& runs_ordered(r.runs, first, r.bid)
            &&& r.reused == st.reused
            &&& r.sizes is Some ==> r.sizes->0.len() == max_blocks
            &&& r.sizes is Some == st.sizes is Some
            &&& forall|b: int|
                0 <= b < max_blocks ==> b + #[trigger] span_of(r.sizes, b) <= max_blocks
            &&& r.runs.len() <= st.runs.len() + 1
            &&& st.runs.len() > 0 && st.runs.last().end() == st.bid ==> r.runs.len()
                == st.runs.len()
            &&& r.bid == st.bid + span_of(st.sizes, st.bid)
            &&& runs_positive(st.runs) ==> runs_positive(r.runs)
            &&& set_slots(bmp).contains(st.bid) ==> r.runs == st.runs
            &&& !set_slots(bmp).contains(st.bid) ==> forall|b: int| #[trigger]
                in_runs(r.runs, b) <==> in_runs(st.runs, b) || st.bid <= b < r.bid
        }),
{
    let count = span_of(st.sizes, st.bid);
    assert(st.bid + span_of(st.sizes, st.bid) <= max_blocks);
    if !set_slots(bmp).contains(st.bid) {
        let s = FlushState {
            sizes: match st.sizes {
                Some(s) => Some(s.update(st.bid, 0u8)),
                None => None,
            },
            ..st
        };
        lemma_joined(s, st.bid, count, first);
        let r = block_flushed(st, bmp);
        assert forall|b: int| 0 <= b < max_blocks implies b + #[trigger] span_of(r.sizes, b)
            <= max_blocks by {
            assert(b + span_of(st.sizes, b) <= max_blocks);
        }
    }
}

proof fn lemma_flush_step(
    st: FlushState,
    old_runs: Seq<GcFl>,
    bmp: Seq<u8>,
    max_blocks: int,
    first: int,
)
    requires
        flush_ok(st, max_blocks, first),
        st.bid < max_blocks,
        run_reused(st, old_runs).bid < max_blocks,
        forall|i: int| 0 <= i < old_runs.len() ==> (#[trigger] old_runs[i]).end() <= max_blocks,
    ensures
        flush_ok(flush_step(st, old_runs, bmp), max_blocks, first),
        flush_step(st, old_runs, bmp).bid > st.bid,
{
    lemma_run_reused(st, old_runs, max_blocks, first);
    lemma_block_flushed(run_reused(st, old_runs), bmp, max_blocks, first);
}

/// Whether, of the blocks in front of `bid`, the unmarked ones are free, and the marked
/// ones only if they were before.
pub open spec fn frees_unmarked(st: FlushState, old_runs: Seq<GcFl>, bmp: Seq<u8>, first: int) -> bool {
    &&& forall|b: int|
        first <= b < st.bid && !set_slots(bmp).contains(b) ==> #[trigger] in_runs(st.runs, b)
    &&& forall|b: int| #[trigger]
        in_runs(st.runs, b) ==> !set_slots(bmp).contains(b) || in_runs(old_runs, b)
}

proof fn lemma_flushed(
    st: FlushState,
    old_runs: Seq<GcFl>,
    bmp: Seq<u8>,
    max_blocks: int,
    first: int,
    fuel: nat,
)
    requires
        flush_ok(st, max_blocks, first),
        fuel >= max_blocks - st.bid,
        forall|i: int| 0 <= i < old_runs.len() ==> (#[trigger] old_runs[i]).end() <= max_blocks,
    ensures
        ({
            let end = flushed(st, old_runs, bmp, max_blocks, fuel);
            &&& end.bid == max_blocks
            &&& runs_ordered(end.runs, first, max_blocks)
            &&& end.runs.len() <= max_blocks - first
            &&& end.sizes is Some ==> end.sizes->0.len() == max_blocks
            &&& end.sizes is Some == st.sizes is Some
            &&& forall|b: int|
                0 <= b < max_blocks ==> b + #[trigger] span_of(end.sizes, b) <= max_blocks
            &&& runs_positive(st.runs) && runs_positive(old_runs) ==> runs_positive(end.runs)
            &&& st.sizes is None && frees_unmarked(st, old_runs, bmp, first) ==> frees_unmarked(
                end,
                old_runs,
                bmp,
                first,
            )
        }),
    decreases fuel,
{
    if st.bid < max_blocks {
        lemma_run_reused(st, old_runs, max_blocks, first);
        let st1 = run_reused(st, old_runs);
        if st.sizes is None && frees_unmarked(st, old_runs, bmp, first) {
            assert(frees_unmarked(st1, old_runs, bmp, first)) by {
                assert forall|b: int|
                    first <= b < st1.bid && !set_slots(bmp).contains(b) implies #[trigger] in_runs(
                    st1.runs,
                    b,
                ) by {
                    if b < st.bid {
                        assert(in_runs(st.runs, b));
                    }
                }
                assert forall|b: int| #[trigger] in_runs(st1.runs, b) implies !set_slots(
                    bmp,
                ).contains(b) || in_runs(old_runs, b) by {
                    if in_runs(st.runs, b) {
                    }
                }
            }
        }
        if st1.bid < max_blocks {
            lemma_flush_step(st, old_runs, bmp, max_blocks, first);
            lemma_block_flushed(st1, bmp, max_blocks, first);
            let st2 = block_flushed(st1, bmp);
            if st.sizes is None && frees_unmarked(st, old_runs, bmp, first) {
                assert(st2.bid == st1.bid + 1);
                assert(frees_unmarked(st2, old_runs, bmp, first)) by {
                    assert forall|b: int|
                        first <= b < st2.bid && !set_slots(bmp).contains(b)
                            implies #[trigger] in_runs(st2.runs, b) by {
                        if b < st1.bid {
                            assert(in_runs(st1.runs, b));
                        }
                    }
                    assert forall|b: int| #[trigger] in_runs(st2.runs, b) implies !set_slots(
                        bmp,
                    ).contains(b) || in_runs(old_runs, b) by {
                        if in_runs(st1.runs, b) {
                        }
                    }
                }
            }
            lemma_flushed(st2, old_runs, bmp, max_blocks, first, (fuel - 1) as nat);
        }
    }
}

/// Making the runs of a page anew: the runs lie within the page, in order, and no two
/// touch, so that no block is free twice. On a page where every object takes one
/// block, every block that is not marked becomes free, and no marked block does that
/// was not free before.
pub proof fn lemma_flush_law(p: GcAllocatorPageData, bmp: Seq<u8>, store: StoreView)
    requires
        p.wf(),
    ensures
        ({
            let end = flush_end(p, bmp, store);
            &&& runs_ordered(end.runs, p.first_block as int, p.max_blocks as int)
            &&& p.sizes is None ==> forall|b: int|
                p.first_block <= b < p.max_blocks && !set_slots(bmp).contains(b)
                    ==> #[trigger] in_runs(end.runs, b)
            &&& p.sizes is None ==> forall|b: int| #[trigger]
                in_runs(end.runs, b) ==> !set_slots(bmp).contains(b) || in_runs(p.free.left(), b)
        }),
{
    let st = flush_start(p, store);
    lemma_start_ok(p, store);
    assert(frees_unmarked(st, p.free.left(), bmp, p.first_block as int));
    lemma_flushed(
        st,
        p.free.left(),
        bmp,
        p.max_blocks as int,
        p.first_block as int,
        (p.max_blocks - p.first_block) as nat,
    );
}

/// A stretch of a page: a run that was free, or an object.
pub struct Piece {
    pub pos: int,
    pub count: int,
    pub was_free: bool,
}

/// The stretches of a page from a block on, up to `fuel` objects: the old runs from `reused`
/// on where they start, and else the objects, by the sizes.
pub open spec fn pieces_from(
    sizes: Option<Seq<u8>>,
    old_runs: Seq<GcFl>,
    bid: int,
    reused: int,
    max_blocks: int,
    fuel: nat,
) -> Seq<Piece>
    decreases fuel,
{
    if fuel == 0 || bid >= max_blocks {
        Seq::empty()
    } else if reused < old_runs.len() && old_runs[reused].pos == bid {
        let run = old_runs[reused];
        seq![Piece { pos: bid, count: run.count as int, was_free: true }] + object_from(
            sizes,
            old_runs,
            run.end(),
            reused + 1,
            max_blocks,
            fuel,
        )
    } else {
        object_from(sizes, old_runs, bid, reused, max_blocks, fuel)
    }
}

/// The same where no run starts at the block.
pub open spec fn object_from(
    sizes: Option<Seq<u8>>,
    old_runs: Seq<GcFl>,
    bid: int,
    reused: int,
    max_blocks: int,
    fuel: nat,
) -> Seq<Piece>
    decreases fuel, 0nat,
    when fuel > 0
{
    if bid >= max_blocks {
        Seq::empty()
    } else {
        let count = span_of(sizes, bid);
        seq![Piece { pos: bid, count, was_free: false }] + pieces_from(
            sizes,
            old_runs,
            bid + count,
            reused,
            max_blocks,
            (fuel - 1) as nat,
        )
    }
}

/// Whether stretches lie side by side from one block up to another.
pub open spec fn pieces_tile(pieces: Seq<Piece>, from: int, to: int) -> bool {
    &&& pieces.len() == 0 ==> from == to
    &&& pieces.len() > 0 ==> pieces[0].pos == from && pieces.last().pos + pieces.last().count == to
    &&& forall|k: int|
        0 <= k < pieces.len() - 1 ==> (#[trigger] pieces[k]).pos + pieces[k].count == pieces[k
            + 1].pos
}

/// Whether a block lies in a stretch that was free, or in an object that is not marked.
pub open spec fn freed_in(pieces: Seq<Piece>, bmp: Seq<u8>, b: int) -> bool {
    exists|k: int|
        0 <= k < pieces.len() && (#[trigger] pieces[k]).pos <= b < pieces[k].pos + pieces[k].count
            && (pieces[k].was_free || !set_slots(bmp).contains(pieces[k].pos))
}

proof fn lemma_piece_front(piece: Piece, rest: Seq<Piece>, bmp: Seq<u8>, to: int)
    requires
        pieces_tile(rest, piece.pos + piece.count, to),
    ensures
        pieces_tile(seq![piece] + rest, piece.pos, to),
        forall|b: int| #[trigger]
            freed_in(seq![piece] + rest, bmp, b) <==> freed_in(rest, bmp, b) || (piece.pos <= b
                < piece.pos + piece.count && (piece.was_free || !set_slots(bmp).contains(
                piece.pos,
            ))),
{
    let all = seq![piece] + rest;
    assert forall|k: int| 0 <= k < all.len() - 1 implies (#[trigger] all[k]).pos + all[k].count
        == all[k + 1].pos by {
        if k > 0 {
            assert(rest[k - 1].pos + rest[k - 1].count == rest[k].pos);
        }
    }
    assert forall|b: int| #[trigger] freed_in(all, bmp, b) <==> freed_in(rest, bmp, b) || (
    piece.pos <= b < piece.pos + piece.count && (piece.was_free || !set_slots(bmp).contains(
        piece.pos,
    ))) by {
        if freed_in(rest, bmp, b) {
            let k = choose|k: int|
                0 <= k < rest.len() && (#[trigger] rest[k]).pos <= b < rest[k].pos + rest[k].count
                    && (rest[k].was_free || !set_slots(bmp).contains(rest[k].pos));
            assert(all[k + 1] == rest[k]);
        }
        if freed_in(all, bmp, b) {
            let k = choose|k: int|
                0 <= k < all.len() && (#[trigger] all[k]).pos <= b < all[k].pos + all[k].count && (
                all[k].was_free || !set_slots(bmp).contains(all[k].pos));
            if k > 0 {
                assert(rest[k - 1] == all[k]);
            }
        }
        assert(all[0] == piece);
    }
}

/// Making the runs anew takes over the stretches that are free, and no others.
proof fn lemma_flushed_pieces(
    st: FlushState,
    sizes: Option<Seq<u8>>,
    old_runs: Seq<GcFl>,
    bmp: Seq<u8>,
    max_blocks: int,
    first: int,
    fuel: nat,
)
    requires
        flush_ok(st, max_blocks, first),
        fuel >= max_blocks - st.bid,
        forall|i: int| 0 <= i < old_runs.len() ==> (#[trigger] old_runs[i]).end() <= max_blocks,
        forall|b: int|
            st.bid <= b < max_blocks ==> #[trigger] span_of(sizes, b) == span_of(st.sizes, b),
    ensures
        ({
            let end = flushed(st, old_runs, bmp, max_blocks, fuel);
            let pieces = pieces_from(sizes, old_runs, st.bid, st.reused, max_blocks, fuel);
            &&& pieces_tile(pieces, st.bid, max_blocks)
            &&& forall|b: int| #[trigger]
                in_runs(end.runs, b) <==> in_runs(st.runs, b) || freed_in(pieces, bmp, b)
        }),
    decreases fuel,
{
    let end = flushed(st, old_runs, bmp, max_blocks, fuel);
    let pieces = pieces_from(sizes, old_runs, st.bid, st.reused, max_blocks, fuel);
    if st.bid < max_blocks {
        lemma_run_reused(st, old_runs, max_blocks, first);
        let st1 = run_reused(st, old_runs);
        let hit = st.reused < old_runs.len() && old_runs[st.reused].pos == st.bid;
        if hit {
            let run = old_runs[st.reused];
            lemma_joined(st, run.pos as int, run.count as int, first);
            assert(st1.bid == run.end());
        }
        let tail = object_from(sizes, old_runs, st1.bid, st1.reused, max_blocks, fuel);
        if st1.bid < max_blocks {
            lemma_flush_step(st, old_runs, bmp, max_blocks, first);
            lemma_block_flushed(st1, bmp, max_blocks, first);
            let st2 = block_flushed(st1, bmp);
            let count = span_of(st1.sizes, st1.bid);
            assert(span_of(sizes, st1.bid) == count);
            assert forall|b: int| st2.bid <= b < max_blocks implies #[trigger] span_of(sizes, b)
                == span_of(st2.sizes, b) by {
                assert(span_of(sizes, b) == span_of(st.sizes, b));
            }
            lemma_flushed_pieces(
                st2,
                sizes,
                old_runs,
                bmp,
                max_blocks,
                first,
                (fuel - 1) as nat,
            );
            let rest = pieces_from(
                sizes,
                old_runs,
                st2.bid,
                st2.reused,
                max_blocks,
                (fuel - 1) as nat,
            );
            let object = Piece { pos: st1.bid, count, was_free: false };
            lemma_piece_front(object, rest, bmp, max_blocks);
            assert(tail == seq![object] + rest);
        } else {
            assert(tail =~= Seq::<Piece>::empty());
        }
        assert(pieces_tile(tail, st1.bid, max_blocks));
        if hit {
            let run = old_runs[st.reused];
            let piece = Piece { pos: st.bid, count: run.count as int, was_free: true };
            lemma_piece_front(piece, tail, bmp, max_blocks);
            assert(pieces == seq![piece] + tail);
        } else {
            assert(pieces == tail);
        }
    } else {
        assert(pieces =~= Seq::<Piece>::empty());
    }
}

/// Making the runs of a page anew, whatever the sizes of its objects: the old runs and the
/// objects lie side by side and fill the page, and a block becomes free exactly if it lies
/// in an old run, or in an object that is not marked.
pub proof fn lemma_flush_objects(p: GcAllocatorPageData, bmp: Seq<u8>, store: StoreView)
    requires
        p.wf(),
    ensures
        ({
            let st = flush_start(p, store);
            let end = flush_end(p, bmp, store);
            let pieces = pieces_from(
                st.sizes,
                p.free.left(),
                p.first_block as int,
                0,
                p.max_blocks as int,
                (p.max_blocks - p.first_block) as nat,
            );
            &&& pieces_tile(pieces, p.first_block as int, p.max_blocks as int)
            &&& forall|b: int| #[trigger] in_runs(end.runs, b) <==> freed_in(pieces, bmp, b)
        }),
{
    let st = flush_start(p, store);
    lemma_start_ok(p, store);
    lemma_flushed_pieces(
        st,
        st.sizes,
        p.free.left(),
        bmp,
        p.max_blocks as int,
        p.first_block as int,
        (p.max_blocks - p.first_block) as nat,
    );
}

/// A block that is taken was free, and is the only one that is free no longer: it is not
/// handed out again until the runs are made anew.
pub proof fn lemma_taken_once(v: PageView, from: int, to: int)
    requires
        0 <= v.current < v.runs.len(),
        v.runs[v.current].count > 0,
        runs_ordered(v.runs.skip(v.current), from, to),
        0 <= from,
        to <= 0xffff,
    ensures
        ({
            let w = block_taken(v);
            let b = v.runs[v.current].pos as int;
            &&& in_runs(v.runs.skip(v.current), b)
            &&& forall|c: int| #[trigger]
                in_runs(w.runs.skip(w.current), c) <==> in_runs(v.runs.skip(v.current), c) && c != b
        }),
{
    let w = block_taken(v);
    let old_left = v.runs.skip(v.current);
    let left = w.runs.skip(w.current);
    let run = v.runs[v.current];
    let b = run.pos as int;
    assert(old_left[0] == run);
    assert(in_runs(old_left, b));
    let gap = w.current - v.current;
    assert forall|c: int| #[trigger] in_runs(left, c) <==> in_runs(old_left, c) && c != b by {
        if in_runs(left, c) {
            let k = choose|k: int|
                0 <= k < left.len() && (#[trigger] left[k]).pos <= c < left[k].pos + left[k].count;
            assert(old_left[k + gap].pos <= c < old_left[k + gap].pos + old_left[k + gap].count);
            if k + gap > 0 {
                assert(old_left[0].pos + old_left[0].count <= old_left[k + gap].pos);
            }
        }
        if in_runs(old_left, c) && c != b {
            let k = choose|k: int|
                0 <= k < old_left.len() && (#[trigger] old_left[k]).pos <= c < old_left[k].pos
                    + old_left[k].count;
            assert(k - gap >= 0);
            assert(left[k - gap].pos <= c < left[k - gap].pos + left[k - gap].count);
        }
    }
}

/// Making the runs anew leaves sizes where there were sizes.
pub proof fn lemma_flush_keeps_sizes(p: GcPHeader, store: StoreView)
    requires
        p.wf(),
        p.bmp is Some,
    ensures
        flush_view(p@, store).0.sizes is Some == p.alloc.sizes is Some,
{
    lemma_start_ok(p.alloc, store);
    lemma_flushed(
        flush_start(p.alloc, store),
        p.alloc.free.left(),
        p.bmp->0@,
        p.alloc.max_blocks as int,
        p.alloc.first_block as int,
        (p.alloc.max_blocks - p.alloc.first_block) as nat,
    );
}

proof fn lemma_start_ok(p: GcAllocatorPageData, store: StoreView)
    requires
        p.wf(),
    ensures
        flush_ok(flush_start(p, store), p.max_blocks as int, p.first_block as int),
        forall|i: int|
            0 <= i < p.free.left().len() ==> (#[trigger] p.free.left()[i]).end() <= p.max_blocks,
{
    let st = flush_start(p, store);
    assert forall|b: int| 0 <= b < p.max_blocks implies b + #[trigger] span_of(st.sizes, b)
        <= p.max_blocks by {
        assert(b + span(p.sizes, b) <= p.max_blocks);
    }
    assert forall|i: int| 0 <= i < p.free.left().len() implies (#[trigger] p.free.left()[i]).end()
        <= p.max_blocks by {
        assert(p.free.left()[i] == p.free.data@[i + p.free.current]);
    }
}

impl GcPHeader {
    /// There is a mark bit for every block, as far as the page has been marked.
    pub open spec fn wf(&self) -> bool {
        &&& self.alloc.wf()
        &&& self.bmp is Some ==> 8 * self.bmp->0@.len() >= self.alloc.max_blocks
    }

    /// Adds blocks to the end of the runs.
    fn add_run(
        store: &mut FreeListStore,
        fl: &mut GcFreeList,
        pos: usize,
        count: usize,
        Ghost(st): Ghost<FlushState>,
    )
        requires
            old(store).wf(),
            old(fl).wf(),
            old(fl).data@ == st.runs,
            old(fl).size_bits == st.bits,
            old(store)@ == st.store,
            pos + count <= 0xffff,
            st.runs.len() <= 0xffff,
            st.runs.len() > 0 ==> st.runs.last().end() <= pos,
        ensures
            final(store).wf(),
            final(fl).wf(),
            final(fl).current == old(fl).current,
            final(fl).data@ == joined(st, pos as int, count as int).runs,
            final(fl).size_bits == joined(st, pos as int, count as int).bits,
            final(store)@ == joined(st, pos as int, count as int).store,
    {
        let n: usize = fl.data.len();
        if n > 0 && fl.data[n - 1].pos as usize + fl.data[n - 1].count as usize == pos {
            let last: GcFl = fl.data[n - 1];
            fl.data.set(n - 1, GcFl { pos: last.pos, count: last.count + count as u16 });
        } else {
            store.freelist_append(fl, pos as u16, count as u16);
        }
    }

    /// Makes the runs of free blocks anew: those that are left stay free, and objects
    /// that are not marked become free.
    pub fn flush_free_list(&mut self, store: &mut FreeListStore)
        requires
            old(self).wf(),
            old(self).bmp is Some,
            old(store).wf(),
        ensures
            final(self).wf(),
            final(store).wf(),
            ({
                let end = flush_end(old(self).alloc, old(self).bmp->0@, old(store)@);
                &&& final(self).alloc.free.data@ == end.runs
                &&& final(self).alloc.free.size_bits == end.bits
                &&& final(self).alloc.free.current == 0
                &&& final(store)@ == given(end.store, old(self).alloc.free.size_bits as int)
                &&& match end.sizes {
                    Some(s) => final(self).alloc.sizes is Some && final(self).alloc.sizes->0@ == s,
                    None => final(self).alloc.sizes is None,
                }
            }),
            final(self)@ == flush_view(old(self)@, old(store)@).0,
            final(store)@ == flush_view(old(self)@, old(store)@).1,
            runs_positive(old(self).alloc.free.left()) ==> runs_positive(
                final(self).alloc.free.data@,
            ),
            !final(self).alloc.need_flush,
            final(self).base == old(self).base,
            final(self).bmp == old(self).bmp,
            final(self).page_size == old(self).page_size,
            final(self).page_kind == old(self).page_kind,
            final(self).alloc.block_size == old(self).alloc.block_size,
            final(self).alloc.max_blocks == old(self).alloc.max_blocks,
            final(self).alloc.first_block == old(self).alloc.first_block,
    {
        let ghost before = *self;
        let ghost old_store = store@;
        let ghost old_runs = self.alloc.free.left();
        let ghost bmp = self.bmp->0@;
        let ghost first = self.alloc.first_block as int;
        let old_bits: usize = self.alloc.free.size_bits;
        let mut new_fl: GcFreeList = store.alloc_freelist(old_bits);
        let mut old_fl: GcFreeList = GcFreeList::new();
        std::mem::swap(&mut old_fl, &mut self.alloc.free);
        let mut taken_sizes: Option<Vec<u8>> = None;
        std::mem::swap(&mut taken_sizes, &mut self.alloc.sizes);
        let has_sizes: bool = taken_sizes.is_some();
        let mut sizes: Vec<u8> = match taken_sizes {
            Some(v) => v,
            None => Vec::new(),
        };
        let mut bmp_taken: Option<Vec<u8>> = None;
        std::mem::swap(&mut bmp_taken, &mut self.bmp);
        let cells: Vec<u8> = match bmp_taken {
            Some(v) => v,
            None => Vec::new(),
        };
        let last: usize = self.alloc.max_blocks;
        let mut bid: usize = self.alloc.first_block;
        let mut reuse_index: usize = old_fl.current;
        let ghost mut st = flush_start(before.alloc, old_store);
        let ghost mut fuel: nat = (last - first) as nat;
        let ghost end = flush_end(before.alloc, bmp, old_store);
        proof {
            lemma_start_ok(before.alloc, old_store);
            lemma_flushed(st, old_runs, bmp, last as int, first, fuel);
            vstd::arithmetic::power2::lemma_pow2_pos(old_bits as nat);
        }
        while bid < last
            invariant
                before.wf(),
                last == before.alloc.max_blocks,
                first == before.alloc.first_block,
                cells@ == bmp,
                8 * bmp.len() >= last,
                old_runs == before.alloc.free.left(),
                old_fl == before.alloc.free,
                reuse_index == before.alloc.free.current + st.reused,
                st.reused <= old_runs.len(),
                store.wf(),
                new_fl.wf(),
                new_fl.current == 0,
                store@ == st.store,
                new_fl.data@ == st.runs,
                new_fl.size_bits == st.bits,
                bid == st.bid,
                has_sizes == st.sizes is Some,
                has_sizes ==> sizes@ == st.sizes->0,
                flush_ok(st, last as int, first) || st.bid == last,
                fuel >= last - st.bid,
                end == flushed(st, old_runs, bmp, last as int, fuel),
                forall|i: int|
                    0 <= i < old_runs.len() ==> (#[trigger] old_runs[i]).end() <= last,
            decreases last - bid,
        {
            let ghost st0 = st;
            let ghost st1 = run_reused(st, old_runs);
            proof {
                lemma_run_reused(st, old_runs, last as int, first);
                if st.runs.len() > 0 {
                    assert(st.runs[st.runs.len() - 1] == st.runs.last());
                }
                if st.reused < old_runs.len() {
                    assert(old_runs[st.reused] == old_fl.data@[reuse_index as int]);
                }
            }
            if reuse_index < old_fl.data.len() && old_fl.data[reuse_index].pos as usize == bid {
                let run: GcFl = old_fl.data[reuse_index];
                assert(old_runs[st.reused].end() <= last);
                Self::add_run(store, &mut new_fl, bid, run.count as usize, Ghost(st));
                reuse_index = reuse_index + 1;
                let n: usize = new_fl.data.len();
                proof {
                    lemma_joined(st, run.pos as int, run.count as int, first);
                    assert(st1.runs[n - 1] == st1.runs.last());
                }
                bid = new_fl.data[n - 1].pos as usize + new_fl.data[n - 1].count as usize;
            }
            assert(bid == st1.bid);
            if bid >= last {
                proof {
                    st = st1;
                }
            } else {
                proof {
                    lemma_flush_step(st0, old_runs, bmp, last as int, first);
                    lemma_block_flushed(st1, bmp, last as int, first);
                    assert(bid + span_of(st1.sizes, bid as int) <= last);
                    if st1.runs.len() > 0 {
                        assert(st1.runs[st1.runs.len() - 1] == st1.runs.last());
                    }
                }
                let mut count: usize = 1;
                if has_sizes {
                    count = sizes[bid] as usize;
                    if count == 0 {
                        count = 1;
                    }
                }
                assert(8 * (bid as int / 8) + bid as int % 8 == bid);
                if !test_cell_bit(&cells, bid / 8, bid % 8) {
                    let ghost s = FlushState {
                        sizes: match st1.sizes {
                            Some(s) => Some(s.update(bid as int, 0u8)),
                            None => None,
                        },
                        ..st1
                    };
                    if has_sizes {
                        sizes.set(bid, 0);
                    }
                    Self::add_run(store, &mut new_fl, bid, count, Ghost(s));
                }
                bid = bid + count;
                proof {
                    st = block_flushed(st1, bmp);
                    fuel = (fuel - 1) as nat;
                }
            }
        }
        self.alloc.free = new_fl;
        self.alloc.need_flush = false;
        self.bmp = Some(cells);
        if has_sizes {
            self.alloc.sizes = Some(sizes);
        }
        store.free_freelist(old_bits);
        proof {
            assert(end == st);
            assert(flush_start(before.alloc, old_store).sizes == before@.sizes);
            assert(self@.runs == end.runs);
            assert forall|b: int| 0 <= b < last implies b + #[trigger] span(self.alloc.sizes, b)
                <= last by {
                assert(b + span_of(end.sizes, b) <= last);
            }
        }
    }
}

/// Where the blocks of a new page start: behind the sizes, if there are more of them
/// than the header has room for.
pub open spec fn start_pos(block: int, max_blocks: int, varsize: bool) -> int {
    let start = if varsize && max_blocks > 8 {
        max_blocks + (64 - max_blocks % 64) % 64
    } else {
        0
    };
    if start % block != 0 {
        start + (block - start % block)
    } else {
        start
    }
}

/// The exponent of the buffer for the runs of a new page: the smallest one from `bits`
/// on, up to eight, with room for an eighth of the blocks.
pub open spec fn list_bits(bits: int, max_blocks: int) -> int
    decreases 8 - bits,
{
    if bits < 8 && pow2(bits as nat) < max_blocks / 8 {
        list_bits(bits + 1, max_blocks)
    } else {
        bits
    }
}

/// A new page of `size` bytes at `base`: one run holds all its blocks.
pub open spec fn fresh_page(
    base: u64,
    block: int,
    size: int,
    kind: i32,
    varsize: bool,
    store: StoreView,
) -> (PageView, StoreView) {
    let max_blocks = size / block;
    let first = start_pos(block, max_blocks, varsize) / block;
    let bits = list_bits(1, max_blocks);
    (
        PageView {
            base,
            page_size: size,
            page_kind: kind,
            block_size: block,
            max_blocks,
            first_block: first,
            need_flush: false,
            current: 0,
            bits,
            runs: seq![GcFl { pos: first as u16, count: (max_blocks - first) as u16 }],
            sizes: if varsize {
                Some(Seq::new(max_blocks as nat, |i: int| 0u8))
            } else {
                None
            },
            bmp: None,
        },
        taken(store, bits),
    )
}

/// A page after block `pos` of its current run has been taken.
pub open spec fn block_taken(v: PageView) -> PageView {
    let c = v.runs[v.current];
    PageView {
        runs: v.runs.update(
            v.current,
            GcFl { pos: (c.pos + 1) as u16, count: (c.count - 1) as u16 },
        ),
        current: if c.count == 1 {
            v.current + 1
        } else {
            v.current
        },
        ..v
    }
}

/// The first run from `k` on with at least `n` blocks, or the number of runs.
pub open spec fn run_with(runs: Seq<GcFl>, n: int, k: int) -> int
    decreases runs.len() - k,
{
    if k >= runs.len() || runs[k].count >= n {
        k
    } else {
        run_with(runs, n, k + 1)
    }
}

/// The sizes after an object of `n` blocks has been placed at block `b`.
pub open spec fn sizes_placed(sizes: Seq<u8>, b: int, n: int) -> Seq<u8> {
    Seq::new(
        sizes.len(),
        |i: int|
            if i == b {
                n as u8
            } else if b <= i < b + n {
                0u8
            } else {
                sizes[i]
            },
    )
}

/// Whether mark bits differ only in that block `b` is marked.
pub open spec fn bit_added(before: Option<Seq<u8>>, after: Option<Seq<u8>>, b: int) -> bool {
    match before {
        Some(c) => {
            &&& after is Some
            &&& after->0.len() == c.len()
            &&& set_slots(after->0) == set_slots(c).insert(b)
        },
        None => after is None,
    }
}

/// Whether an object of `n` blocks has been placed at block `b` of a page.
pub open spec fn object_placed(before: PageView, after: PageView, b: int, n: int) -> bool {
    &&& bit_added(before.bmp, after.bmp, b)
    &&& after == (PageView {
        bmp: after.bmp,
        sizes: Some(sizes_placed(before.sizes->0, b, n)),
        ..before
    })
}

impl GcPHeader {
    /// A new page.
    pub fn fresh(
        base: u64,
        block: usize,
        size: usize,
        kind: i32,
        varsize: bool,
        store: &mut FreeListStore,
    ) -> (r: GcPHeader)
        requires
            old(store).wf(),
            block > 0,
            size <= i32::MAX,
            size / block <= 0xffff,
            start_pos(block as int, (size / block) as int, varsize) / block as int <= size / block,
        ensures
            final(store).wf(),
            r.wf(),
            r@ == fresh_page(base, block as int, size as int, kind, varsize, old(store)@).0,
            final(store)@ == fresh_page(
                base,
                block as int,
                size as int,
                kind,
                varsize,
                old(store)@,
            ).1,
    {
        let max_blocks: usize = size / block;
        let mut start: usize = 0;
        let mut sizes: Option<Vec<u8>> = None;
        if varsize {
            if max_blocks > 8 {
                start = max_blocks + (64 - max_blocks % 64) % 64;
            }
            let zeros: Vec<u8> = crate::bits::zeroed_cells(max_blocks);
            assert(zeros@ =~= Seq::new(max_blocks as nat, |i: int| 0u8));
            sizes = Some(zeros);
        }
        let m: usize = start % block;
        assert(block <= size || max_blocks == 0) by {
            if size < block {
                vstd::arithmetic::div_mod::lemma_basic_div(size as int, block as int);
            }
        }
        if m != 0 {
            proof {
                if max_blocks == 0 {
                    assert(start == 0);
                    vstd::arithmetic::div_mod::lemma_small_mod(0, block as nat);
                }
            }
            start = start + (block - m);
        }
        let mut fl_bits: usize = 1;
        proof {
            lemma_shift_is_pow2(1);
        }
        while fl_bits < 8 && (1u64 << (fl_bits as u64)) < (max_blocks / 8) as u64
            invariant
                1 <= fl_bits <= 8,
                1u64 << (fl_bits as u64) == pow2(fl_bits as nat),
                list_bits(fl_bits as int, max_blocks as int) == list_bits(1, max_blocks as int),
            decreases 8 - fl_bits,
        {
            fl_bits = fl_bits + 1;
            proof {
                lemma_shift_is_pow2(fl_bits as u64);
            }
        }
        let first_block: usize = start / block;
        let ghost before = store@;
        let mut free: GcFreeList = store.alloc_freelist(fl_bits);
        proof {
            vstd::arithmetic::power2::lemma_pow2_pos(fl_bits as nat);
        }
        store.freelist_append(&mut free, first_block as u16, (max_blocks - first_block) as u16);
        assert(free.data@ =~= seq![
            GcFl { pos: first_block as u16, count: (max_blocks - first_block) as u16 },
        ]);
        let r = GcPHeader {
            base,
            bmp: None,
            page_size: size,
            page_kind: kind,
            alloc: GcAllocatorPageData {
                block_size: block,
                max_blocks,
                first_block,
                need_flush: false,
                free,
                sizes,
            },
        };
        assert(r@ =~= fresh_page(base, block as int, size as int, kind, varsize, before).0);
        r
    }

    /// Takes the first block of the current run.
    pub fn take_block(&mut self) -> (r: usize)
        requires
            old(self).wf(),
            old(self).alloc.free.current < old(self).alloc.free.data@.len(),
            old(self).alloc.free.data@[old(self).alloc.free.current as int].count > 0,
        ensures
            final(self).wf(),
            r == old(self)@.runs[old(self)@.current].pos,
            r < old(self).alloc.max_blocks,
            final(self)@ == block_taken(old(self)@),
            runs_positive(old(self).alloc.free.left()) ==> runs_positive(
                final(self).alloc.free.left(),
            ),
    {
        let ghost before = *self;
        let k: usize = self.alloc.free.current;
        let c: GcFl = self.alloc.free.data[k];
        assert(self.alloc.free.data@[k as int].end() <= self.alloc.max_blocks);
        self.alloc.free.data.set(k, GcFl { pos: c.pos + 1, count: c.count - 1 });
        if c.count - 1 == 0 {
            self.alloc.free.current = k + 1;
        }
        proof {
            assert forall|b: int| 0 <= b < self.alloc.max_blocks implies b + #[trigger] span(
                self.alloc.sizes,
                b,
            ) <= self.alloc.max_blocks by {
                assert(b + span(before.alloc.sizes, b) <= before.alloc.max_blocks);
            }
            if runs_positive(before.alloc.free.left()) {
                let left = self.alloc.free.left();
                assert forall|i: int| 0 <= i < left.len() implies (#[trigger] left[i]).count > 0 by {
                    let at = i + self.alloc.free.current;
                    assert(left[i] == self.alloc.free.data@[at]);
                    assert(before.alloc.free.left()[at - k] == before.alloc.free.data@[at]);
                }
            }
        }
        c.pos as usize
    }

    /// Finds a run with at least `n` blocks and takes them. The run keeps its
    /// start.
    pub fn take_blocks(&mut self, n: usize) -> (r: Option<usize>)
        requires
            old(self).wf(),
            1 <= n <= 0xff,
        ensures
            final(self).wf(),
            ({
                let v = old(self)@;
                let k = run_with(v.runs, n as int, v.current);
                &&& k >= v.runs.len() ==> r is None && *final(self) == *old(self)
                &&& k < v.runs.len() ==> {
                    &&& r == Some(v.runs[k].pos as usize)
                    &&& r->0 + n <= old(self).alloc.max_blocks
                    &&& final(self)@ == (PageView {
                        runs: v.runs.update(
                            k,
                            GcFl { pos: v.runs[k].pos, count: (v.runs[k].count - n) as u16 },
                        ),
                        current: if v.runs[k].count == n {
                            v.current + 1
                        } else {
                            v.current
                        },
                        ..v
                    })
                }
            }),
    {
        let ghost before = *self;
        let mut k: usize = self.alloc.free.current;
        while k < self.alloc.free.data.len()
            invariant
                *self == before,
                before == *old(self),
                before.wf(),
                before.alloc.free.current <= k <= before.alloc.free.data@.len(),
                1 <= n <= 0xff,
                run_with(before@.runs, n as int, k as int) == run_with(
                    before@.runs,
                    n as int,
                    before@.current,
                ),
            decreases before.alloc.free.data@.len() - k,
        {
            let c: GcFl = self.alloc.free.data[k];
            if c.count as usize >= n {
                assert(self.alloc.free.data@[k as int].end() <= self.alloc.max_blocks);
                self.alloc.free.data.set(k, GcFl { pos: c.pos, count: c.count - n as u16 });
                if c.count - n as u16 == 0 {
                    self.alloc.free.current = self.alloc.free.current + 1;
                }
                proof {
                    assert forall|b: int|
                        0 <= b < self.alloc.max_blocks implies b + #[trigger] span(
                        self.alloc.sizes,
                        b,
                    ) <= self.alloc.max_blocks by {
                        assert(b + span(before.alloc.sizes, b) <= before.alloc.max_blocks);
                    }
                }
                return Some(c.pos as usize);
            }
            k = k + 1;
        }
        None
    }

    /// Takes the first `n` blocks of a page that has just been made.
    pub fn take_first(&mut self, n: usize) -> (r: usize)
        requires
            old(self).wf(),
            old(self).alloc.free.data@.len() > 0,
            old(self).alloc.free.data@[0].pos == old(self).alloc.first_block,
            1 <= n <= old(self).alloc.free.data@[0].count,
        ensures
            final(self).wf(),
            r == old(self).alloc.first_block,
            r + n <= old(self).alloc.max_blocks,
            final(self)@ == (PageView {
                runs: old(self)@.runs.update(
                    0,
                    GcFl {
                        pos: (old(self)@.runs[0].pos + n) as u16,
                        count: (old(self)@.runs[0].count - n) as u16,
                    },
                ),
                ..old(self)@
            }),
    {
        let ghost before = *self;
        let c: GcFl = self.alloc.free.data[0];
        assert(self.alloc.free.data@[0].end() <= self.alloc.max_blocks);
        self.alloc.free.data.set(0, GcFl { pos: c.pos + n as u16, count: c.count - n as u16 });
        proof {
            assert forall|b: int| 0 <= b < self.alloc.max_blocks implies b + #[trigger] span(
                self.alloc.sizes,
                b,
            ) <= self.alloc.max_blocks by {
                assert(b + span(before.alloc.sizes, b) <= before.alloc.max_blocks);
            }
        }
        self.alloc.first_block
    }

    /// Places an object of `n` blocks at block `b`: it is marked, if there are mark
    /// bits, and its size is noted.
    pub fn place(&mut self, b: usize, n: usize)
        requires
            old(self).wf(),
            old(self).alloc.sizes is Some,
            1 <= n <= 0xff,
            b + n <= old(self).alloc.max_blocks,
        ensures
            final(self).wf(),
            object_placed(old(self)@, final(self)@, b as int, n as int),
    {
        let ghost before = *self;
        let mut bmp: Option<Vec<u8>> = None;
        std::mem::swap(&mut bmp, &mut self.bmp);
        match bmp {
            Some(mut cells) => {
                assert(8 * (b as int / 8) + b as int % 8 == b);
                set_cell_bit(&mut cells, b / 8, b % 8);
                self.bmp = Some(cells);
            },
            None => {},
        }
        let mut taken_sizes: Option<Vec<u8>> = None;
        std::mem::swap(&mut taken_sizes, &mut self.alloc.sizes);
        match taken_sizes {
            Some(mut sizes) => {
                let ghost old_sizes = sizes@;
                let mut i: usize = 0;
                while i < n
                    invariant
                        i <= n,
                        b + n <= sizes@.len() <= 0xffff,
                        sizes@.len() == old_sizes.len(),
                        forall|k: int|
                            0 <= k < sizes@.len() ==> #[trigger] sizes@[k] == (if b <= k < b + i {
                                0u8
                            } else {
                                old_sizes[k]
                            }),
                    decreases n - i,
                {
                    sizes.set(b + i, 0);
                    i = i + 1;
                }
                sizes.set(b, n as u8);
                assert(sizes@ =~= sizes_placed(old_sizes, b as int, n as int));
                self.alloc.sizes = Some(sizes);
            },
            None => {},
        }
        proof {
            assert forall|k: int| 0 <= k < self.alloc.max_blocks implies k + #[trigger] span(
                self.alloc.sizes,
                k,
            ) <= self.alloc.max_blocks by {
                assert(k + span(before.alloc.sizes, k) <= before.alloc.max_blocks);
            }
        }
    }
}

/// The first block from `b` down to the first block of the page that an object starts
/// at, if there is one.
pub open spec fn object_block(sizes: Seq<u8>, first: int, b: int) -> Option<int>
    decreases b - first + 1,
{
    if b < first {
        None
    } else if sizes[b] != 0 {
        Some(b)
    } else {
        object_block(sizes, first, b - 1)
    }
}

/// The block of the object that an address of the page points into.
pub open spec fn interior_block(v: PageView, ptr: int) -> Option<int> {
    let b = (ptr - v.base) / v.block_size;
    match v.sizes {
        Some(s) => object_block(s, v.first_block, b),
        None => Some(b),
    }
}

/// The bytes of the object that starts at block `b`.
pub open spec fn object_bytes(v: PageView, b: int) -> int {
    match v.sizes {
        Some(s) => s[b] * v.block_size,
        None => v.block_size,
    }
}

/// Whether the cells from `from` on, `size` of them, are zero.
pub fn is_zero(cells: &Vec<u8>, from: usize, size: usize) -> (r: bool)
    requires
        from + size <= cells@.len(),
    ensures
        r == (forall|i: int| from <= i < from + size ==> #[trigger] cells@[i] == 0),
{
    let mut i: usize = 0;
    while i < size
        invariant
            i <= size,
            from + size <= cells@.len(),
            cells@.len() == cells.len(),
            forall|k: int| from <= k < from + i ==> #[trigger] cells@[k] == 0,
        decreases size - i,
    {
        if cells[from + i] != 0 {
            return false;
        }
        i = i + 1;
    }
    true
}

impl GcPHeader {
    /// Whether an address lies in the page.
    pub fn in_page(&self, ptr: u64) -> (r: bool)
        requires
            self.base + self.page_size <= u64::MAX,
        ensures
            r == (self.base <= ptr < self.base + self.page_size),
    {
        ptr >= self.base && ptr < self.base + self.page_size as u64
    }

    /// The block of the object that an address of the page points into.
    pub fn get_block_interior(&self, ptr: u64) -> (r: Option<usize>)
        requires
            self.wf(),
            self.alloc.block_size > 0,
            self.base <= ptr,
            ptr - self.base <= usize::MAX,
            self.alloc.sizes is Some ==> (ptr - self.base) / (self.alloc.block_size as int)
                < self.alloc.max_blocks,
        ensures
            match interior_block(self@, ptr as int) {
                Some(b) => r == Some(b as usize) && 0 <= b <= (ptr - self.base) / (
                self.alloc.block_size as int),
                None => r is None,
            },
    {
        let offset: usize = (ptr - self.base) as usize;
        let mut bid: usize = offset / self.alloc.block_size;
        proof {
            assert(bid == (ptr - self.base) / self.alloc.block_size as int);
        }
        match &self.alloc.sizes {
            Some(sizes) => {
                let first: usize = self.alloc.first_block;
                if bid < first {
                    return None;
                }
                let ghost goal = object_block(sizes@, first as int, bid as int);
                while sizes[bid] == 0
                    invariant
                        first <= bid < sizes@.len(),
                        goal == object_block(sizes@, first as int, bid as int),
                        goal == interior_block(self@, ptr as int),
                        bid <= (ptr - self.base) / (self.alloc.block_size as int),
                    decreases bid,
                {
                    if bid == first {
                        assert(object_block(sizes@, first as int, bid - 1) is None);
                        return None;
                    }
                    bid = bid - 1;
                }
                Some(bid)
            },
            None => Some(bid),
        }
    }

    /// The bytes of the object that starts at an address of the page.
    pub fn fast_block_size(&self, block: u64) -> (r: usize)
        requires
            self.wf(),
            self.alloc.block_size > 0,
            self.base <= block,
            block - self.base <= usize::MAX,
            self.alloc.sizes is Some ==> (block - self.base) / (self.alloc.block_size as int)
                < self.alloc.max_blocks,
            255 * self.alloc.block_size <= usize::MAX,
        ensures
            r == object_bytes(self@, (block - self.base) / self.alloc.block_size as int),
    {
        match &self.alloc.sizes {
            Some(sizes) => {
                let b: usize = (block - self.base) as usize / self.alloc.block_size;
                proof {
                    let s = sizes@[b as int] as int;
                    let n = self.alloc.block_size as int;
                    assert(s * n <= 255 * n) by (nonlinear_arith)
                        requires
                            0 <= s <= 255,
                            n > 0,
                    ;
                }
                sizes[b] as usize * self.alloc.block_size
            },
            None => self.alloc.block_size,
        }
    }
}

} // verus!
