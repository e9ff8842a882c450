//! The heap of blocks: its layout, how it grows, and what a collection leaves of it.

use vstd::prelude::*;

use super::block_allocator::{
    all_swept, apart_from_lists, blocks_freed, blocks_ok, cleared, free_block, has_run, in_runs,
    lemma_apart_part, lemma_blocks_freed, lemma_freed_apart, lemma_freed_parts, lemma_swept_parts,
    BlockAllocator, BlockFlag, BlockMeta, BlocksView,
};
use super::constants::{
    space_used_per_block, BLOCK_TOTAL_SIZE, LINE_COUNT, LINE_SIZE, METADATA_PER_BLOCK_TABLES,
    MIN_HEAP_SIZE,
};
use super::large_allocator::{
    can_sweep, front_freed, large_swept, lemma_large_swept, lemma_places_swept_blocks, meta_swept,
    pieces_ok, places_swept, Bytemap, LargeAllocator, LargeView, ObjectMeta,
};
use super::mark::{covered, led_to, only_marked, stack_roots, Marker};
use crate::heap::free_list::apart;

verus! {

/// Why a heap cannot be made.
#[derive(Clone, Copy, PartialEq, Eq, Debug, Structural)]
pub enum InitError {
    /// The largest size is below the smallest that is possible.
    MaximumTooSmall,
    /// The initial size is above the limit.
    MinimumTooLarge,
    /// The largest size is below the initial one.
    MaximumBelowMinimum,
}

/// The sizes of a heap and of the tables that belong to it.
#[derive(Clone, Copy, PartialEq, Eq, Debug, Structural)]
pub struct HeapPlan {
    pub min_heap_size: usize,
    pub max_heap_size: usize,
    pub initial_block_count: usize,
    pub max_number_of_blocks: usize,
    pub block_meta_space_size: usize,
    pub line_meta_space_size: usize,
    pub bytemap_space_size: usize,
}

/// What sweeping the lines of a block has found.
#[derive(Clone, Copy, PartialEq, Eq, Debug, Structural)]
pub enum BlockUse {
    /// Nothing in the block is marked.
    Unmarked,
    /// Some lines are free.
    FreeLines,
    /// No line is free.
    Full,
}

/// The limit for the size of a heap, given the memory of the machine.
pub fn get_memory_limit(total_memory: usize, max_heap_size: usize) -> (r: usize)
    ensures
        r == (if total_memory > max_heap_size {
            max_heap_size
        } else {
            total_memory
        }),
{
    if total_memory > max_heap_size {
        max_heap_size
    } else {
        total_memory
    }
}

/// The first multiple of `alignment_size` from a mapped address on.
pub fn map_and_align(mapped: usize, alignment_size: usize) -> (r: usize)
    requires
        alignment_size > 0,
        mapped + alignment_size <= usize::MAX,
    ensures
        r % alignment_size == 0,
        mapped <= r < mapped + alignment_size,
{
    let m: usize = mapped % alignment_size;
    proof {
        let a = alignment_size as int;
        let q = mapped as int / a;
        vstd::arithmetic::div_mod::lemma_fundamental_div_mod(mapped as int, a);
        assert(mapped - m == a * q);
        assert(a * (q + 1) == a * q + a) by (nonlinear_arith);
        vstd::arithmetic::div_mod::lemma_mod_multiples_basic(q + 1, a);
        assert((q + 1) * a == a * (q + 1)) by (nonlinear_arith);
    }
    if m != 0 {
        mapped - m + alignment_size
    } else {
        mapped
    }
}

/// The sizes of a heap, or why it cannot be made. `meta_size` and `bytemap_header` are the
/// sizes of a block's header and of the header of the table of objects.
pub fn init(
    min_heap_size: usize,
    max_heap_size: usize,
    limit: usize,
    meta_size: usize,
    bytemap_header: usize,
) -> (r: Result<HeapPlan, InitError>)
    requires
        meta_size <= 4096,
        bytemap_header <= 4096,
    ensures
        max_heap_size < MIN_HEAP_SIZE ==> r == Err::<HeapPlan, InitError>(
            InitError::MaximumTooSmall,
        ),
        max_heap_size >= MIN_HEAP_SIZE && min_heap_size > limit ==> r == Err::<
            HeapPlan,
            InitError,
        >(InitError::MinimumTooLarge),
        max_heap_size >= MIN_HEAP_SIZE && min_heap_size <= limit && max_heap_size < min_heap_size
            ==> r == Err::<HeapPlan, InitError>(InitError::MaximumBelowMinimum),
        max_heap_size >= MIN_HEAP_SIZE && min_heap_size <= limit && max_heap_size >= min_heap_size
            ==> ({
            let max = if max_heap_size == usize::MAX {
                limit as int
            } else {
                max_heap_size as int
            };
            let space = space_used_per_block(meta_size as int);
            &&& r is Ok
            &&& r->Ok_0.min_heap_size == min_heap_size
            &&& r->Ok_0.max_heap_size == max
            &&& r->Ok_0.initial_block_count == min_heap_size as int / space
            &&& r->Ok_0.max_number_of_blocks == max / space
            &&& r->Ok_0.block_meta_space_size == (max / space) * meta_size
            &&& r->Ok_0.line_meta_space_size == (max / space) * 128
            &&& r->Ok_0.bytemap_space_size == max / 16 + bytemap_header
        }),
{
    if max_heap_size < MIN_HEAP_SIZE {
        return Err(InitError::MaximumTooSmall);
    }
    if min_heap_size > limit {
        return Err(InitError::MinimumTooLarge);
    }
    if max_heap_size < min_heap_size {
        return Err(InitError::MaximumBelowMinimum);
    }
    let max: usize = if max_heap_size == usize::MAX {
        limit
    } else {
        max_heap_size
    };
    let space: usize = BLOCK_TOTAL_SIZE + meta_size + METADATA_PER_BLOCK_TABLES;
    let max_number_of_blocks: usize = max / space;
    let initial_block_count: usize = min_heap_size / space;
    proof {
        let q = max_number_of_blocks as int;
        let s = space as int;
        vstd::arithmetic::div_mod::lemma_fundamental_div_mod(max as int, s);
        assert(q * meta_size <= max && q * 128 <= max) by (nonlinear_arith)
            requires
                max == s * q + max as int % s,
                0 <= max as int % s,
                q >= 0,
                0 <= meta_size <= s,
                128 <= s,
        ;
    }
    Ok(
        HeapPlan {
            min_heap_size,
            max_heap_size: max,
            initial_block_count,
            max_number_of_blocks,
            block_meta_space_size: max_number_of_blocks * meta_size,
            line_meta_space_size: max_number_of_blocks * LINE_COUNT,
            bytemap_space_size: max / 16 + bytemap_header,
        },
    )
}

/// A heap of blocks.
pub struct Heap {
    pub heap_start: usize,
    pub heap_end: usize,
    pub line_meta_start: usize,
    pub line_meta_end: usize,
    pub heap_size: usize,
    pub max_heap_size: usize,
    pub block_count: u32,
    pub max_block_count: u32,
    pub metas: Vec<BlockMeta>,
    pub bytemap: Bytemap,
    pub block_allocator: BlockAllocator,
    pub large_allocator: LargeAllocator,
}

/// The view after block `b` has been looked at, and how many blocks that took.
pub open spec fn block_recycled(v: LargeView, uses: Seq<BlockUse>, b: int) -> (LargeView, int) {
    let meta = v.blocks.metas[b];
    if meta.flag == BlockFlag::HumongousStart {
        (large_swept(v, b), meta.humongous_size as int)
    } else if meta.flag == BlockFlag::Simple && uses[b] == BlockUse::FreeLines {
        (
            LargeView {
                blocks: BlocksView {
                    recycled: v.blocks.recycled.push(b as usize),
                    recycled_count: v.blocks.recycled_count + 1,
                    ..v.blocks
                },
                ..v
            },
            1,
        )
    } else if meta.flag == BlockFlag::Simple && uses[b] == BlockUse::Full {
        (v, 1)
    } else {
        (LargeView { blocks: blocks_freed(v.blocks, b, 1), ..v }, 1)
    }
}

/// The view after the blocks from `b` on have been looked at.
pub open spec fn all_recycled(v: LargeView, uses: Seq<BlockUse>, b: int, fuel: nat) -> LargeView
    decreases fuel,
{
    if fuel == 0 || b >= v.blocks.metas.len() {
        v
    } else {
        let (w, n) = block_recycled(v, uses, b);
        all_recycled(w, uses, b + n, (fuel - 1) as nat)
    }
}

/// Whether the blocks from `a` up to `b` are runs and single blocks, one behind the other.
pub open spec fn laid_between(metas: Seq<BlockMeta>, a: int, b: int) -> bool
    decreases b - a,
{
    a == b || (a < b && if metas[a].flag == BlockFlag::HumongousStart {
        &&& metas[a].humongous_size >= 1
        &&& a + metas[a].humongous_size <= b
        &&& laid_between(metas, a + metas[a].humongous_size, b)
    } else {
        metas[a].flag != BlockFlag::HumongousContinuation && laid_between(metas, a + 1, b)
    })
}

/// Whether the blocks from `b` on are runs and single blocks, one behind the other.
pub open spec fn laid_out(metas: Seq<BlockMeta>, b: int) -> bool {
    laid_between(metas, b, metas.len() as int)
}

/// The headers of blocks decide whether they are laid out.
proof fn lemma_laid_same(metas: Seq<BlockMeta>, next: Seq<BlockMeta>, a: int, b: int)
    requires
        laid_between(metas, a, b),
        forall|j: int| a <= j < b ==> (#[trigger] next[j]) == metas[j],
    ensures
        laid_between(next, a, b),
    decreases b - a,
{
    if a < b {
        assert(next[a] == metas[a]);
        if metas[a].flag == BlockFlag::HumongousStart {
            lemma_laid_same(metas, next, a + metas[a].humongous_size, b);
        } else {
            lemma_laid_same(metas, next, a + 1, b);
        }
    }
}

/// Blocks that are laid out can follow others.
proof fn lemma_laid_join(metas: Seq<BlockMeta>, a: int, m: int, b: int)
    requires
        laid_between(metas, a, m),
        laid_between(metas, m, b),
    ensures
        laid_between(metas, a, b),
        a <= m <= b,
    decreases m - a,
{
    if a < m {
        if metas[a].flag == BlockFlag::HumongousStart {
            lemma_laid_join(metas, a + metas[a].humongous_size, m, b);
        } else {
            lemma_laid_join(metas, a + 1, m, b);
        }
    } else if m < b {
        lemma_laid_ends(metas, m, b);
    }
}

proof fn lemma_laid_ends(metas: Seq<BlockMeta>, a: int, b: int)
    requires
        laid_between(metas, a, b),
    ensures
        a <= b,
{
}

/// Free blocks are laid out.
proof fn lemma_laid_free(metas: Seq<BlockMeta>, a: int, b: int)
    requires
        a <= b,
        forall|j: int| a <= j < b ==> (#[trigger] metas[j]).flag == BlockFlag::Free,
    ensures
        laid_between(metas, a, b),
    decreases b - a,
{
    if a < b {
        assert(metas[a].flag == BlockFlag::Free);
        lemma_laid_free(metas, a + 1, b);
    }
}

/// Whether the blocks in front of `b` are laid out, but for those that are being collected.
pub open spec fn laid_before(v: BlocksView, b: int) -> bool {
    match v.coalescing {
        None => laid_between(v.metas, 0, b),
        Some((f, t)) => 0 <= f <= t <= b && laid_between(v.metas, 0, f) && laid_between(
            v.metas,
            t,
            b,
        ),
    }
}

/// Freeing the blocks from `b` on keeps what lies in front of them laid out.
proof fn lemma_freed_laid(v: BlocksView, b: int, n: int)
    requires
        blocks_ok(v),
        0 <= b,
        0 < n,
        b + n <= v.metas.len(),
        laid_before(v, b),
    ensures
        laid_before(blocks_freed(v, b, n), b + n),
{
    lemma_freed_parts(v, b, n);
    let w = blocks_freed(v, b, n);
    if let Some((f, t)) = v.coalescing {
        if t == b {
            lemma_laid_same(v.metas, w.metas, 0, f);
        } else {
            lemma_laid_same(v.metas, w.metas, 0, f);
            lemma_laid_same(v.metas, w.metas, t, b);
            lemma_laid_free(w.metas, f, t);
            lemma_laid_join(w.metas, 0, f, t);
            lemma_laid_join(w.metas, 0, t, b);
        }
    } else {
        lemma_laid_same(v.metas, w.metas, 0, b);
    }
}

/// Blocks that stay as they are keep what lies in front of them laid out.
proof fn lemma_kept_laid(v: BlocksView, w: BlocksView, b: int, c: int)
    requires
        laid_before(v, b),
        w.coalescing == v.coalescing,
        w.metas == v.metas,
        laid_between(v.metas, b, c),
    ensures
        laid_before(w, c),
{
    match v.coalescing {
        None => lemma_laid_join(v.metas, 0, b, c),
        Some((f, t)) => lemma_laid_join(v.metas, t, b, c),
    }
}

/// Putting the blocks that were collected last in the lists leaves all blocks laid out.
proof fn lemma_swept_laid(v: BlocksView)
    requires
        blocks_ok(v),
        laid_before(v, v.metas.len() as int),
    ensures
        laid_out(all_swept(v).metas, 0),
        laid_before(all_swept(v), v.metas.len() as int),
{
    lemma_swept_parts(v);
    let w = all_swept(v);
    if let Some((f, t)) = v.coalescing {
        let n = v.metas.len() as int;
        lemma_laid_same(v.metas, w.metas, 0, f);
        lemma_laid_same(v.metas, w.metas, t, n);
        lemma_laid_free(w.metas, f, t);
        lemma_laid_join(w.metas, 0, f, t);
        lemma_laid_join(w.metas, 0, t, n);
    }
}

/// Sweeping a run leaves it laid out, or being collected.
proof fn lemma_large_laid(v: LargeView, b: int)
    requires
        can_sweep(v.blocks, b),
        v.blocks.metas[b].flag == BlockFlag::HumongousStart,
        v.blocks.coalescing matches Some((f, t)) ==> t <= b,
        laid_before(v.blocks, b),
    ensures
        laid_before(large_swept(v, b).blocks, b + v.blocks.metas[b].humongous_size),
{
    let n = v.blocks.metas[b].humongous_size as int;
    let c = b + n;
    let last = (b + n - 1) * 32768;
    let marked = v.places[b * 32768 / 16] == ObjectMeta::Marked;
    let v1 = if n > 1 && !marked {
        front_freed(v, b, n)
    } else {
        v
    };
    let v2 = LargeView {
        places: v1.places.update(b * 32768 / 16, meta_swept(v1.places[b * 32768 / 16])),
        ..v1
    };
    let first: Option<int> = if marked {
        None
    } else {
        Some(last)
    };
    lemma_places_swept_blocks(v2, first, last, 3);
    let (w, open) = places_swept(v2, first, last, 3);
    assert(w.blocks == v1.blocks);
    if marked {
        assert(open != Some(last));
        assert(laid_between(v.blocks.metas, c, c));
        assert(laid_between(v.blocks.metas, b, c));
        lemma_kept_laid(v.blocks, large_swept(v, b).blocks, b, c);
    } else {
        let d = c - 1;
        if n > 1 {
            lemma_freed_laid(v.blocks, b, n - 1);
            lemma_freed_parts(v.blocks, b, n - 1);
            let freed = blocks_freed(v.blocks, b, n - 1);
            match freed.coalescing {
                None => lemma_laid_same(freed.metas, v1.blocks.metas, 0, d),
                Some((f, t)) => {
                    lemma_laid_same(freed.metas, v1.blocks.metas, 0, f);
                    lemma_laid_same(freed.metas, v1.blocks.metas, t, d);
                },
            }
        }
        assert(laid_before(v1.blocks, d));
        if open == Some(last) {
            if n > 1 {
                assert((v1.blocks.coalescing->0).1 == d);
                assert(laid_between(v1.blocks.metas, c, c));
            } else {
                lemma_freed_laid(v1.blocks, d, 1);
            }
        } else {
            assert(v1.blocks.metas[d].flag == BlockFlag::HumongousStart
                && v1.blocks.metas[d].humongous_size == 1);
            assert(laid_between(v1.blocks.metas, c, c));
            assert(laid_between(v1.blocks.metas, d, c));
            lemma_kept_laid(v1.blocks, large_swept(v, b).blocks, d, c);
        }
    }
}

/// Whether everything that is free lies in front of a block.
pub open spec fn free_below(v: BlocksView, b: int) -> bool {
    &&& blocks_ok(v)
    &&& v.smallest.0 >= v.smallest.1
    &&& apart_from_lists(v.lists, b, v.metas.len() - b)
    &&& v.coalescing matches Some((f, t)) ==> t <= b
}

/// The decision to grow.
pub open spec fn wants_growth(free: u32, recycled: u32, count: u32) -> bool {
    let unavailable = count.wrapping_sub(free.wrapping_add(recycled));
    free.wrapping_mul(2) < count || unavailable.wrapping_mul(4) > count
}

impl Heap {
    pub open spec fn view(&self) -> LargeView {
        self.large_allocator.view(&self.bytemap, self.block_allocator.view(self.metas@))
    }

    /// Whether the heap is in order. All blocks are laid out, and none are being collected.
    pub open spec fn wf(&self) -> bool {
        self.sweeping_wf() && self@.blocks.coalescing is None
    }

    /// The same while blocks are being collected.
    pub open spec fn sweeping_wf(&self) -> bool {
        &&& laid_before(self@.blocks, self.metas@.len() as int)
        &&& self.tables_wf()
    }

    /// Whether the tables of the heap agree.
    pub open spec fn tables_wf(&self) -> bool {
        &&& blocks_ok(self@.blocks)
        &&& pieces_ok(self@.lists, self@.places)
        &&& self.bytemap.data@.len() == 2048 * self.metas@.len()
        &&& self.metas@.len() == self.block_count
        &&& self.metas@.len() * 32768 <= usize::MAX
    }

    /// The number of the line that a word lies in.
    pub fn get_line_meta_for_word(&self, word: usize) -> (r: usize)
        requires
            self.heap_start <= word,
            self.line_meta_start + (word - self.heap_start) / 256 <= usize::MAX,
        ensures
            r == self.line_meta_start + (word - self.heap_start) / 256,
    {
        let line_global_index: usize = (word - self.heap_start) / LINE_SIZE;
        self.line_meta_start + line_global_index
    }

    pub fn is_word_in_heap(&self, word: usize) -> (r: bool)
        ensures
            r == (self.heap_start <= word < self.heap_end),
    {
        word >= self.heap_start && word < self.heap_end
    }

    /// Whether the heap can have `increment` more blocks.
    pub fn is_growing_possible(&self, increment: usize) -> (r: bool)
        requires
            self.block_count + increment <= u32::MAX,
        ensures
            r == (self.block_count + increment <= self.max_block_count),
    {
        self.block_count + increment as u32 <= self.max_block_count
    }

    /// Whether too few blocks are free, or too many are in use.
    pub fn should_grow(&self) -> (r: bool)
        ensures
            r == wants_growth(
                self.block_allocator.free_block_count,
                self.block_allocator.recycled_blocks_count,
                self.block_count,
            ),
    {
        let free: u32 = self.block_allocator.free_block_count;
        let count: u32 = self.block_count;
        let recycled: u32 = self.block_allocator.recycled_blocks_count;
        let unavailable: u32 = count.wrapping_sub(free.wrapping_add(recycled));
        free.wrapping_mul(2) < count || unavailable.wrapping_mul(4) > count
    }

    /// Looks at all blocks after marking: what is not marked becomes free.
    fn recycle_blocks(&mut self, uses: &Vec<BlockUse>)
        requires
            old(self).wf(),
            uses@.len() == old(self).metas@.len(),
            old(self).block_allocator.recycled_blocks_count + old(self).metas@.len() <= u32::MAX,
        ensures
            final(self).sweeping_wf(),
            final(self).metas@.len() == old(self).metas@.len(),
            *final(self) == (Heap {
                metas: final(self).metas,
                bytemap: final(self).bytemap,
                block_allocator: final(self).block_allocator,
                large_allocator: final(self).large_allocator,
                ..*old(self)
            }),
            final(self)@ == all_recycled(
                LargeView { blocks: cleared(old(self)@.blocks), ..old(self)@ },
                uses@,
                0,
                old(self).metas@.len(),
            ),
            final(self).block_allocator.free_block_count <= 2 * old(self).metas@.len(),
    {
        let ghost before = *self;
        let ghost start = LargeView { blocks: cleared(self@.blocks), ..self@ };
        let ghost goal = all_recycled(start, uses@, 0, self.metas@.len());
        self.block_allocator.clear();
        proof {
            assert(self@ == start);
            assert forall|i: int, k: int| !has_run(self@.blocks.lists, i, k) by {}
            assert(free_below(self@.blocks, 0));
        }
        let count: usize = self.metas.len();
        let mut current: usize = 0;
        let ghost mut fuel: nat = self.metas@.len();
        while current < count
            invariant
                count == self.metas@.len(),
                count == before.metas@.len(),
                self.tables_wf(),
                *self == (Heap {
                    metas: self.metas,
                    bytemap: self.bytemap,
                    block_allocator: self.block_allocator,
                    large_allocator: self.large_allocator,
                    ..before
                }),
                uses@.len() == count,
                current <= count,
                laid_out(self.metas@, current as int),
                laid_before(self@.blocks, current as int),
                free_below(self@.blocks, current as int),
                self@.blocks.free <= 2 * current,
                self@.blocks.recycled_count <= before.block_allocator.recycled_blocks_count
                    + current,
                before.block_allocator.recycled_blocks_count + count <= u32::MAX,
                fuel >= count - current,
                goal == all_recycled(self@, uses@, current as int, fuel),
                goal == all_recycled(start, uses@, 0, before.metas@.len()),
            decreases count - current,
        {
            let ghost v = self@;
            let ghost b = current as int;
            let ghost old_metas = self.metas@;
            let meta: BlockMeta = self.metas[current];
            let mut size: usize = 1;
            proof {
                lemma_apart_part(v.blocks.lists, b, count - b, b, 1);
                lemma_apart_part(v.blocks.lists, b, count - b, b + 1, count - b - 1);
            }
            if meta.flag == BlockFlag::HumongousStart {
                size = meta.humongous_size as usize;
                proof {
                    lemma_apart_part(v.blocks.lists, b, count - b, b, size as int);
                    lemma_apart_part(
                        v.blocks.lists,
                        b,
                        count - b,
                        b + size,
                        count - b - size,
                    );
                    lemma_large_swept(v, b);
                    lemma_large_laid(v, b);
                }
                self.large_allocator.sweep(
                    &mut self.bytemap,
                    &mut self.block_allocator,
                    &mut self.metas,
                    current,
                );
            } else if meta.flag == BlockFlag::Simple && uses[current] == BlockUse::FreeLines {
                self.block_allocator.recycle(current);
                assert(self@.blocks == (BlocksView {
                    recycled: v.blocks.recycled.push(current),
                    recycled_count: v.blocks.recycled_count + 1,
                    ..v.blocks
                }));
                proof {
                    assert(laid_between(v.blocks.metas, b + 1, b + 1));
                    assert(laid_between(v.blocks.metas, b, b + 1));
                    lemma_kept_laid(v.blocks, self@.blocks, b, b + 1);
                }
            } else if meta.flag == BlockFlag::Simple && uses[current] == BlockUse::Full {
                proof {
                    assert(laid_between(v.blocks.metas, b + 1, b + 1));
                    assert(laid_between(v.blocks.metas, b, b + 1));
                    lemma_kept_laid(v.blocks, self@.blocks, b, b + 1);
                }
            } else {
                proof {
                    lemma_freed_laid(v.blocks, b, 1);
                    lemma_freed_parts(v.blocks, b, 1);
                    lemma_freed_apart(v.blocks, b, 1, b + 1, count - b - 1);
                }
                self.block_allocator.add_free_blocks(&mut self.metas, current, 1);
            }
            proof {
                lemma_laid_same(old_metas, self.metas@, b + size, count as int);
                fuel = (fuel - 1) as nat;
            }
            current = current + size;
        }
    }

    /// Adds `increment` blocks at the end. Tells whether the heap can have them.
    pub fn grow(&mut self, increment: usize, meta_size: usize) -> (r: bool)
        requires
            old(self).sweeping_wf(),
            0 < increment,
            meta_size <= 4096,
            old(self).can_grow(increment as int, meta_size as int),
            old(self).block_allocator.free_block_count < u32::MAX,
        ensures
            r ==> final(self).wf(),
            r == (old(self).block_count + increment <= old(self).max_block_count),
            !r ==> *final(self) == *old(self),
            r ==> {
                let v = old(self)@.blocks;
                let grown = BlocksView {
                    metas: v.metas + Seq::new(increment as nat, |i: int| new_meta()),
                    ..v
                };
                &&& final(self).heap_size == old(self).heap_size + increment
                    * space_used_per_block(meta_size as int)
                &&& final(self).heap_end == old(self).heap_end + increment * 32768
                &&& final(self).line_meta_end == old(self).line_meta_end + increment * 128
                &&& final(self).block_count == old(self).block_count + increment
                &&& final(self)@.blocks == all_swept(
                    blocks_freed(grown, v.metas.len() as int, increment as int),
                )
                &&& final(self).bytemap.data@ == old(self).bytemap.data@ + free_places(
                    increment as int,
                )
                &&& *final(self) == (Heap {
                    heap_size: final(self).heap_size,
                    heap_end: final(self).heap_end,
                    line_meta_end: final(self).line_meta_end,
                    block_count: final(self).block_count,
                    metas: final(self).metas,
                    bytemap: final(self).bytemap,
                    block_allocator: final(self).block_allocator,
                    ..*old(self)
                })
            },
    {
        if !self.is_growing_possible(increment) {
            return false;
        }
        let ghost v = self@.blocks;
        let ghost lists = self.large_allocator.freelist@;
        let space: usize = BLOCK_TOTAL_SIZE + meta_size + METADATA_PER_BLOCK_TABLES;
        self.heap_size = self.heap_size + increment * space;
        self.heap_end = self.heap_end + increment * 32768;
        self.line_meta_end = self.line_meta_end + increment * 128;
        let old_count: usize = self.metas.len();
        self.extend_metas(increment);
        let ghost grown = BlocksView {
            metas: v.metas + Seq::new(increment as nat, |i: int| new_meta()),
            ..v
        };
        proof {
            assert(self@.blocks == grown);
            lemma_grown_ok(v, grown, increment as int);
            let n = old_count as int;
            match v.coalescing {
                None => lemma_laid_same(v.metas, grown.metas, 0, n),
                Some((f, t)) => {
                    lemma_laid_same(v.metas, grown.metas, 0, f);
                    lemma_laid_same(v.metas, grown.metas, t, n);
                },
            }
            lemma_freed_laid(grown, n, increment as int);
        }
        self.block_allocator.add_free_blocks(&mut self.metas, old_count, increment);
        self.block_count = self.block_count + increment as u32;
        proof {
            lemma_swept_laid(self@.blocks);
            lemma_swept_parts(self@.blocks);
        }
        self.block_allocator.sweep_done(&mut self.metas);
        true
    }

    /// Adds headers and places for `n` blocks.
    fn extend_metas(&mut self, n: usize)
        requires
            old(self).bytemap.data@.len() == 2048 * old(self).metas@.len(),
            pieces_ok(old(self).large_allocator.freelist@, old(self).bytemap.data@),
            (old(self).metas@.len() + n) * 2048 <= usize::MAX,
        ensures
            *final(self) == (Heap {
                metas: final(self).metas,
                bytemap: final(self).bytemap,
                ..*old(self)
            }),
            final(self).metas@ == old(self).metas@ + Seq::new(n as nat, |i: int| new_meta()),
            final(self).bytemap.data@ == old(self).bytemap.data@ + free_places(n as int),
            final(self).bytemap.data@.len() == 2048 * final(self).metas@.len(),
            pieces_ok(final(self).large_allocator.freelist@, final(self).bytemap.data@),
    {
        let ghost before = *self;
        let mut i: usize = 0;
        while i < n
            invariant
                i <= n,
                *self == (Heap { metas: self.metas, bytemap: self.bytemap, ..before }),
                self.bytemap == before.bytemap,
                self.metas@ == before.metas@ + Seq::new(i as nat, |i: int| new_meta()),
            decreases n - i,
        {
            self.metas.push(
                BlockMeta { flag: BlockFlag::Free, humongous_size: 0, first_free_line: None },
            );
            i = i + 1;
            assert(self.metas@ =~= before.metas@ + Seq::new(i as nat, |i: int| new_meta()));
        }
        let mut k: usize = 0;
        let total: usize = n * 2048;
        assert(self.bytemap.data@ =~= before.bytemap.data@ + free_places(n as int).take(0));
        while k < total
            invariant
                k <= total,
                total == n * 2048,
                self.bytemap.data@ == before.bytemap.data@ + free_places(n as int).take(k as int),
                *self == (Heap { metas: self.metas, bytemap: self.bytemap, ..before }),
                self.metas@ == before.metas@ + Seq::new(n as nat, |i: int| new_meta()),
                self.bytemap.data@.len() == before.bytemap.data@.len() + k,
            decreases total - k,
        {
            self.bytemap.data.push(ObjectMeta::Free);
            k = k + 1;
            assert(self.bytemap.data@ =~= before.bytemap.data@ + free_places(n as int).take(
                k as int,
            ));
        }
        assert(free_places(n as int).take(k as int) =~= free_places(n as int));
    }

    /// Looks at all blocks after marking, and grows if too few are free. `growth` is the
    /// number of blocks by which the heap would like to grow; if that is too much, it
    /// grows as far as it can.
    pub fn recycle(&mut self, uses: &Vec<BlockUse>, growth: usize, meta_size: usize)
        requires
            old(self).wf(),
            uses@.len() == old(self).metas@.len(),
            old(self).block_allocator.recycled_blocks_count + old(self).metas@.len() <= u32::MAX,
            old(self).block_count + growth <= u32::MAX,
            meta_size <= 4096,
            old(self).can_grow(
                growth_possible(old(self).block_count, old(self).max_block_count, growth),
                meta_size as int,
            ),
        ensures
            final(self).wf(),
            recycled(old(self), final(self), uses@, growth, meta_size as int),
    {
        let ghost before = *self;
        self.recycle_blocks(uses);
        let ghost swept = self@;
        proof {
            assert(swept.places + free_places(0) =~= swept.places);
            lemma_swept_laid(self@.blocks);
            lemma_swept_parts(self@.blocks);
        }
        if self.should_grow() {
            if self.is_growing_possible(growth) {
                if growth > 0 {
                    let done: bool = self.grow(growth, meta_size);
                }
            } else if self.max_block_count > self.block_count {
                let remaining: usize = (self.max_block_count - self.block_count) as usize;
                let done: bool = self.grow(remaining, meta_size);
            }
        }
        let ghost inc = self.block_count - before.block_count;
        let ghost mid = self@;
        self.block_allocator.sweep_done(&mut self.metas);
        proof {
            let goal = growth_possible(before.block_count, before.max_block_count, growth);
            let wants = wants_growth(
                swept.blocks.free as u32,
                swept.blocks.recycled_count as u32,
                before.block_count,
            );
            assert(inc == if wants {
                goal
            } else {
                0
            });
            if inc == 0 {
                assert(inc * space_used_per_block(meta_size as int) == 0) by (nonlinear_arith)
                    requires
                        inc == 0,
                ;
                assert(mid == swept);
            } else {
                assert(mid.blocks.coalescing is None);
                assert(all_swept(mid.blocks) == mid.blocks);
            }
            assert(self@.places =~= swept.places + free_places(inc));
            assert(self@.lists =~= swept.lists);
        }
    }

    /// Whether numbers and addresses have room for `increment` more blocks.
    pub open spec fn can_grow(&self, increment: int, meta_size: int) -> bool {
        &&& self.block_count + increment < 0x80_0000
        &&& self.heap_size + increment * space_used_per_block(meta_size) <= usize::MAX
        &&& self.heap_end + increment * 32768 <= usize::MAX
        &&& self.line_meta_end + increment * 128 <= usize::MAX
        &&& (self.block_count + increment) * 32768 <= usize::MAX
    }
}

/// Whether looking at all blocks has turned one heap into another.
pub open spec fn recycled(
    before: &Heap,
    after: &Heap,
    uses: Seq<BlockUse>,
    growth: usize,
    meta_size: int,
) -> bool {
    let start = LargeView { blocks: cleared(before@.blocks), ..before@ };
    let swept = all_recycled(start, uses, 0, before.metas@.len());
    let count = before.block_count;
    let increment: int = if !wants_growth(
        swept.blocks.free as u32,
        swept.blocks.recycled_count as u32,
        count,
    ) {
        0
    } else {
        growth_possible(count, before.max_block_count, growth)
    };
    let v = swept.blocks;
    let grown = BlocksView {
        metas: v.metas + Seq::new(increment as nat, |i: int| new_meta()),
        ..v
    };
    &&& after.block_count == count + increment
    &&& after.heap_size == before.heap_size + increment * space_used_per_block(meta_size)
    &&& after.heap_end == before.heap_end + increment * 32768
    &&& after.line_meta_end == before.line_meta_end + increment * 128
    &&& after@ == (LargeView {
        lists: swept.lists,
        places: swept.places + free_places(increment),
        blocks: if increment == 0 {
            all_swept(v)
        } else {
            all_swept(blocks_freed(grown, v.metas.len() as int, increment))
        },
    })
    &&& *after == (Heap {
        heap_size: after.heap_size,
        heap_end: after.heap_end,
        line_meta_end: after.line_meta_end,
        block_count: after.block_count,
        metas: after.metas,
        bytemap: after.bytemap,
        block_allocator: after.block_allocator,
        large_allocator: after.large_allocator,
        ..*before
    })
}

/// Whether a heap differs from another in marks alone, and what the words of the stacks lead
/// to is marked, and nothing else.
pub open spec fn heap_marked(
    before: &Heap,
    after: &Heap,
    stacks: Seq<Vec<usize>>,
    starts: Seq<Vec<Option<usize>>>,
    refs: Seq<Vec<usize>>,
) -> bool {
    let start = before.heap_start as int;
    let end = before.heap_end as int;
    let roots = stack_roots(stacks, starts, start, end, stacks.len() as int);
    let places = before.bytemap.data@;
    &&& *after == (Heap { bytemap: after.bytemap, ..*before })
    &&& only_marked(places, after.bytemap.data@)
    &&& forall|p: int|
        0 <= p < places.len() ==> (#[trigger] after.bytemap.data@[p] == ObjectMeta::Marked
            <==> led_to(places, refs, start, end, roots, p))
}

/// Whether the use of each simple block is what its lines show.
pub open spec fn lines_seen<F: Fn(&Bytemap, usize) -> BlockUse>(
    lines: F,
    marked: &Heap,
    uses: Seq<BlockUse>,
) -> bool {
    &&& uses.len() == marked.metas@.len()
    &&& forall|i: int|
        0 <= i < uses.len() && marked.metas@[i].flag == BlockFlag::Simple ==> call_ensures(
            lines,
            (&marked.bytemap, i as usize),
            #[trigger] uses[i],
        )
}

impl Heap {
    /// Collects: marks what the words of the stacks lead to, asks how the lines of each simple
    /// block are used, and gives back what is not. For the words of the stacks see
    /// `Marker::mark_roots`, for the growth see `recycle`.
    pub fn collect<F: Fn(&Bytemap, usize) -> BlockUse>(
        &mut self,
        stacks: &Vec<Vec<usize>>,
        starts: &Vec<Vec<Option<usize>>>,
        refs: &Vec<Vec<usize>>,
        lines: F,
        growth: usize,
        meta_size: usize,
    )
        requires
            old(self).wf(),
            covered(
                old(self).heap_start as int,
                old(self).heap_end as int,
                old(self).bytemap.data@,
            ),
            refs@.len() == old(self).bytemap.data@.len(),
            starts@.len() == stacks@.len(),
            forall|i: int|
                0 <= i < stacks@.len() ==> (#[trigger] starts@[i])@.len() == stacks@[i]@.len(),
            forall|i: int|
                0 <= i < old(self).bytemap.data@.len() ==> (#[trigger] old(self).bytemap.data@[i])
                    != ObjectMeta::Marked,
            forall|b: &Bytemap, i: usize|
                b.data@.len() == old(self).bytemap.data@.len() && i < old(self).metas@.len()
                    ==> #[trigger] call_requires(lines, (b, i)),
            old(self).block_allocator.recycled_blocks_count + old(self).metas@.len() <= u32::MAX,
            old(self).block_count + growth <= u32::MAX,
            meta_size <= 4096,
            old(self).can_grow(
                growth_possible(old(self).block_count, old(self).max_block_count, growth),
                meta_size as int,
            ),
        ensures
            final(self).wf(),
            exists|marked: Heap, uses: Seq<BlockUse>|
                {
                    &&& #[trigger] heap_marked(old(self), &marked, stacks@, starts@, refs@)
                    &&& lines_seen(lines, &marked, uses)
                    &&& #[trigger] recycled(
                        &marked,
                        final(self),
                        uses,
                        growth,
                        meta_size as int,
                    )
                },
    {
        let ghost before = *self;
        let mut marker: Marker = Marker::new();
        let start: usize = self.heap_start;
        let end: usize = self.heap_end;
        marker.mark_roots(&mut self.bytemap, start, end, stacks, starts, refs);
        let ghost marked = *self;
        let mut uses: Vec<BlockUse> = Vec::new();
        let n: usize = self.metas.len();
        let mut i: usize = 0;
        while i < n
            invariant
                *self == marked,
                n == self.metas@.len(),
                i <= n,
                uses@.len() == i,
                forall|b: &Bytemap, i: usize|
                    b.data@.len() == self.bytemap.data@.len() && i < n
                        ==> #[trigger] call_requires(lines, (b, i)),
                forall|j: int|
                    0 <= j < i && self.metas@[j].flag == BlockFlag::Simple ==> call_ensures(
                        lines,
                        (&self.bytemap, j as usize),
                        #[trigger] uses@[j],
                    ),
            decreases n - i,
        {
            let block: BlockUse = if self.metas[i].flag == BlockFlag::Simple {
                lines(&self.bytemap, i)
            } else {
                BlockUse::Full
            };
            uses.push(block);
            i = i + 1;
        }
        assert(self@.blocks == before@.blocks);
        self.recycle(&uses, growth, meta_size);
        assert(heap_marked(&before, &marked, stacks@, starts@, refs@));
        assert(lines_seen(lines, &marked, uses@));
    }
}

/// The places of `n` new blocks.
pub open spec fn free_places(n: int) -> Seq<ObjectMeta> {
    Seq::new((2048 * n) as nat, |i: int| ObjectMeta::Free)
}

/// The number of blocks by which a heap grows that wants to grow by `growth` blocks, or as
/// far as it can.
pub open spec fn growth_possible(count: u32, max: u32, growth: usize) -> int {
    if count + growth <= max {
        growth as int
    } else if count < max {
        max - count
    } else {
        0
    }
}

/// The header of a new block.
pub open spec fn new_meta() -> BlockMeta {
    BlockMeta { flag: BlockFlag::Free, humongous_size: 0, first_free_line: None }
}

/// New blocks at the end are in no list.
proof fn lemma_grown_ok(v: BlocksView, grown: BlocksView, n: int)
    requires
        blocks_ok(v),
        n > 0,
        grown == (BlocksView {
            metas: v.metas + Seq::new(n as nat, |i: int| new_meta()),
            ..v
        }),
        v.metas.len() + n < 0x80_0000,
    ensures
        blocks_ok(grown),
        apart_from_lists(grown.lists, v.metas.len() as int, n),
        grown.smallest.0 < grown.smallest.1 ==> grown.smallest.1 <= v.metas.len(),
        grown.coalescing matches Some((f, t)) ==> t <= v.metas.len(),
{
    assert forall|i: int, k: int| has_run(grown.lists, i, k) implies {
        &&& (#[trigger] grown.lists[i][k]) + vstd::arithmetic::power2::pow2(i as nat)
            <= v.metas.len()
        &&& grown.metas[grown.lists[i][k] as int].humongous_size
            == vstd::arithmetic::power2::pow2(i as nat)
    } by {
        assert(has_run(v.lists, i, k));
        vstd::arithmetic::power2::lemma_pow2_pos(i as nat);
        assert(v.lists[i][k] + vstd::arithmetic::power2::pow2(i as nat) <= v.metas.len());
    }
}

/// What looking at a block does with it: one that is full stays as it is, one with free lines
/// is put with those that wait and is not free, and an unused one is free. No other block
/// changes. An object that takes more than a block is left to the sweep of its run.
pub proof fn lemma_block_recycled(v: LargeView, uses: Seq<BlockUse>, b: int)
    requires
        free_below(v.blocks, b),
        0 <= b < v.blocks.metas.len(),
        v.blocks.metas[b].flag != BlockFlag::HumongousStart,
    ensures
        ({
            let (w, n) = block_recycled(v, uses, b);
            let simple = v.blocks.metas[b].flag == BlockFlag::Simple;
            let stays = simple && uses[b] == BlockUse::Full;
            let waits = simple && uses[b] == BlockUse::FreeLines;
            &&& n == 1
            &&& w.places == v.places && w.lists == v.lists
            &&& forall|c: int| #[trigger]
                free_block(w.blocks, c) <==> free_block(v.blocks, c) || (c == b && !stays && !waits)
            &&& !free_block(v.blocks, b)
            &&& forall|c: usize| #[trigger]
                w.blocks.recycled.contains(c) <==> v.blocks.recycled.contains(c) || (c == b && waits)
            &&& w.blocks.metas.len() == v.blocks.metas.len()
        }),
{
    let (w, n) = block_recycled(v, uses, b);
    let old_list = v.blocks.recycled;
    lemma_blocks_freed(v.blocks, b, 1);
    lemma_freed_parts(v.blocks, b, 1);
    assert(!free_block(v.blocks, b)) by {
        if in_runs(v.blocks.lists, b) {
            let (i, k) = choose|i: int, k: int|
                has_run(v.blocks.lists, i, k) && (#[trigger] v.blocks.lists[i][k]) <= b
                    < v.blocks.lists[i][k] + vstd::arithmetic::power2::pow2(i as nat);
            assert(apart(
                v.blocks.lists[i][k] as int,
                vstd::arithmetic::power2::pow2(i as nat) as int,
                b,
                v.blocks.metas.len() - b,
            ));
        }
    }
    assert forall|c: int| #[trigger] free_block(
        BlocksView {
            recycled: old_list.push(b as usize),
            recycled_count: v.blocks.recycled_count + 1,
            ..v.blocks
        },
        c,
    ) <==> free_block(v.blocks, c) by {}
    let pushed = old_list.push(b as usize);
    assert forall|c: usize| #[trigger] pushed.contains(c) <==> old_list.contains(c) || c == b by {
        if old_list.contains(c) {
            let k = choose|k: int| 0 <= k < old_list.len() && old_list[k] == c;
            assert(pushed[k] == c);
        }
        if c == b {
            assert(pushed[old_list.len() as int] == c);
        }
    }
}

/// A heap grows by what was wanted, or as far as it can, and never beyond its limit.
pub proof fn lemma_growth_possible(count: u32, max: u32, growth: usize)
    requires
        count <= max,
    ensures
        ({
            let n = growth_possible(count, max, growth);
            &&& 0 <= n <= growth
            &&& count + n <= max
            &&& n == growth || count + n == max
        }),
{
}

} // verus!
