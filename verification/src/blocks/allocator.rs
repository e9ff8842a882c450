//! Allocation by moving a cursor through free lines and free blocks.

use vstd::prelude::*;

use super::block_allocator::{
    block_taken, blocks_ok, free_block, has_run, lemma_block_taken, lists_ok, none_from,
    BlockAllocator, BlockMeta, BlocksView,
};
use super::constants::{BLOCK_TOTAL_SIZE, LINE_COUNT, LINE_SIZE};

verus! {

/// What a run of free lines holds in its first line.
#[derive(Clone, Copy, PartialEq, Eq, Debug, Structural)]
pub struct FreeLineMeta {
    /// The next run of free lines of the block, or none.
    pub next: Option<u8>,
    /// The number of free lines.
    pub size: u8,
}

/// The places that the next objects go to.
#[derive(Clone, Copy, PartialEq, Eq, Debug, Structural)]
pub struct Allocator {
    pub heap_start: usize,
    pub block: usize,
    pub block_start: usize,
    pub cursor: usize,
    pub limit: usize,
    pub large_block: usize,
    pub large_block_start: usize,
    pub large_cursor: usize,
    pub large_limit: usize,
}

/// The number of collections after which an allocator gives up.
pub const INIT_RETRIES: usize = 5;

/// The address of a block.
pub open spec fn start_of(heap_start: int, block: int) -> int {
    heap_start + block * BLOCK_TOTAL_SIZE
}

/// The free lines that start at a line of a block.
pub open spec fn line_at(lines: Seq<FreeLineMeta>, block: int, line: int) -> FreeLineMeta {
    lines[block * LINE_COUNT + line]
}

/// Whether the first free lines of a block can be used.
pub open spec fn has_lines(metas: Seq<BlockMeta>, lines: Seq<FreeLineMeta>, block: int) -> bool {
    &&& 0 <= block < metas.len()
    &&& metas[block].first_free_line matches Some(i) && i < LINE_COUNT && line_at(
        lines,
        block,
        i as int,
    ).size > 0 && i + line_at(lines, block, i as int).size <= LINE_COUNT
}

/// The allocator after it has moved to the first free lines of a block.
pub open spec fn at_line(
    a: Allocator,
    metas: Seq<BlockMeta>,
    lines: Seq<FreeLineMeta>,
    block: int,
) -> Allocator {
    let line = metas[block].first_free_line->0 as int;
    let cursor = start_of(a.heap_start as int, block) + line * LINE_SIZE;
    Allocator {
        cursor: cursor as usize,
        limit: (cursor + line_at(lines, block, line).size * LINE_SIZE) as usize,
        ..a
    }
}

/// The headers after the first free lines of a block have been taken.
pub open spec fn line_taken(
    metas: Seq<BlockMeta>,
    lines: Seq<FreeLineMeta>,
    block: int,
) -> Seq<BlockMeta> {
    let line = metas[block].first_free_line->0 as int;
    metas.update(
        block,
        BlockMeta { first_free_line: line_at(lines, block, line).next, ..metas[block] },
    )
}

/// The blocks after one has been looked for among those with free lines.
pub open spec fn recycled_taken(v: BlocksView) -> (BlocksView, Option<int>) {
    if v.recycled_count == 0 {
        (v, None)
    } else if v.recycled.len() == 0 {
        (BlocksView { recycled_count: v.recycled_count - 1, ..v }, None)
    } else {
        (
            BlocksView {
                recycled: v.recycled.skip(1),
                recycled_count: v.recycled_count - 1,
                ..v
            },
            Some(v.recycled[0] as int),
        )
    }
}

/// The allocator after it has moved to a block: one with free lines if there is one, or
/// else a free block. It stays where it is if there is neither.
pub open spec fn next_block(a: Allocator, v: BlocksView, lines: Seq<FreeLineMeta>) -> (
    Allocator,
    BlocksView,
    bool,
) {
    match recycled_taken(v) {
        (w, Some(b)) => (
            Allocator {
                block: b as usize,
                block_start: start_of(a.heap_start as int, b) as usize,
                ..at_line(a, w.metas, lines, b)
            },
            BlocksView { metas: line_taken(w.metas, lines, b), ..w },
            true,
        ),
        (w, None) => match block_taken(w) {
            (u, None) => (a, u, false),
            (u, Some(b)) => (
                Allocator {
                    block: b as usize,
                    block_start: start_of(a.heap_start as int, b) as usize,
                    cursor: start_of(a.heap_start as int, b) as usize,
                    limit: (start_of(a.heap_start as int, b) + BLOCK_TOTAL_SIZE) as usize,
                    ..a
                },
                BlocksView {
                    metas: u.metas.update(b, BlockMeta { first_free_line: None, ..u.metas[b] }),
                    ..u
                },
                true,
            ),
        },
    }
}

/// The allocator after it has moved to the next free lines of its block, or to the next
/// block if it has none left.
pub open spec fn next_line(a: Allocator, v: BlocksView, lines: Seq<FreeLineMeta>) -> (
    Allocator,
    BlocksView,
    bool,
) {
    if v.metas[a.block as int].first_free_line is None {
        next_block(a, v, lines)
    } else {
        (
            at_line(a, v.metas, lines, a.block as int),
            BlocksView { metas: line_taken(v.metas, lines, a.block as int), ..v },
            true,
        )
    }
}

/// The allocator after its second cursor has moved to a free block.
pub open spec fn large_at(a: Allocator, b: int) -> Allocator {
    Allocator {
        large_block: b as usize,
        large_block_start: start_of(a.heap_start as int, b) as usize,
        large_cursor: start_of(a.heap_start as int, b) as usize,
        large_limit: (start_of(a.heap_start as int, b) + BLOCK_TOTAL_SIZE) as usize,
        ..a
    }
}

/// Allocation with the second cursor, which only uses free blocks.
pub open spec fn overflowed(a: Allocator, v: BlocksView, size: int) -> (
    Allocator,
    BlocksView,
    Option<usize>,
) {
    if a.large_cursor + size <= a.large_limit {
        (
            Allocator { large_cursor: (a.large_cursor + size) as usize, ..a },
            v,
            Some(a.large_cursor),
        )
    } else {
        match block_taken(v) {
            (w, None) => (a, w, None),
            (w, Some(b)) => {
                let n = large_at(a, b);
                (
                    Allocator { large_cursor: (n.large_cursor + size) as usize, ..n },
                    w,
                    Some(n.large_cursor),
                )
            },
        }
    }
}

/// Allocation: at the cursor if there is room, with the second cursor if the object is
/// longer than a line, and in the next free lines otherwise.
pub open spec fn allocated(a: Allocator, v: BlocksView, lines: Seq<FreeLineMeta>, size: int) -> (
    Allocator,
    BlocksView,
    Option<usize>,
) {
    if a.cursor + size <= a.limit {
        (Allocator { cursor: (a.cursor + size) as usize, ..a }, v, Some(a.cursor))
    } else if size > LINE_SIZE {
        overflowed(a, v, size)
    } else {
        let (n, w, moved) = next_line(a, v, lines);
        if moved {
            (Allocator { cursor: (n.cursor + size) as usize, ..n }, w, Some(n.cursor))
        } else {
            (n, w, None)
        }
    }
}

/// Whether the heap of an allocator can be addressed, and the lines of its blocks are
/// known.
pub open spec fn heap_ok(a: Allocator, v: BlocksView, lines: Seq<FreeLineMeta>) -> bool {
    &&& blocks_ok(v)
    &&& a.heap_start + v.metas.len() * BLOCK_TOTAL_SIZE <= usize::MAX
    &&& lines.len() == v.metas.len() * LINE_COUNT
}

/// Whether the next block with free lines can be used.
pub open spec fn recycled_ok(v: BlocksView, lines: Seq<FreeLineMeta>) -> bool {
    v.recycled_count > 0 && v.recycled.len() > 0 ==> has_lines(
        v.metas,
        lines,
        v.recycled[0] as int,
    )
}

/// Free lines may be noted in a header without disturbing the runs.
proof fn lemma_lines_noted(v: BlocksView, b: int, next: Option<u8>)
    requires
        blocks_ok(v),
        0 <= b < v.metas.len(),
    ensures
        blocks_ok(
            BlocksView {
                metas: v.metas.update(b, BlockMeta { first_free_line: next, ..v.metas[b] }),
                ..v
            },
        ),
{
    let n = v.metas.update(b, BlockMeta { first_free_line: next, ..v.metas[b] });
    assert forall|i: int, k: int| has_run(v.lists, i, k) implies {
        &&& (#[trigger] v.lists[i][k]) + vstd::arithmetic::power2::pow2(i as nat) <= n.len()
        &&& n[v.lists[i][k] as int].humongous_size == vstd::arithmetic::power2::pow2(i as nat)
    } by {
        vstd::arithmetic::power2::lemma_pow2_pos(i as nat);
        assert(v.metas[v.lists[i][k] as int].humongous_size == vstd::arithmetic::power2::pow2(
            i as nat,
        ));
    }
    assert(lists_ok(v.lists, n));
}

impl Allocator {
    pub fn new(heap_start: usize) -> (r: Self)
        ensures
            r == (Allocator {
                heap_start,
                block: 0,
                block_start: 0,
                cursor: 0,
                limit: 0,
                large_block: 0,
                large_block_start: 0,
                large_cursor: 0,
                large_limit: 0,
            }),
    {
        Allocator {
            heap_start,
            block: 0,
            block_start: 0,
            cursor: 0,
            limit: 0,
            large_block: 0,
            large_block_start: 0,
            large_cursor: 0,
            large_limit: 0,
        }
    }

    /// Whether there are blocks for both cursors.
    pub fn can_init_cursors(&self, blocks: &BlockAllocator) -> (r: bool)
        ensures
            r == (blocks.free_block_count >= 2 || (blocks.free_block_count == 1
                && blocks.recycled_blocks_count > 0)),
    {
        blocks.free_block_count >= 2 || (blocks.free_block_count == 1
            && blocks.recycled_blocks_count > 0)
    }

    /// Tries to give both cursors a block. If there are not enough blocks, those that were
    /// taken stay taken, and the second cursor stays where it is.
    pub fn try_init_cursors(
        &mut self,
        blocks: &mut BlockAllocator,
        metas: &mut Vec<BlockMeta>,
        lines: &Vec<FreeLineMeta>,
    ) -> (r: bool)
        requires
            heap_ok(*old(self), old(blocks).view(old(metas)@), lines@),
            recycled_ok(old(blocks).view(old(metas)@), lines@),
        ensures
            ({
                let (n, w, first) = next_block(
                    *old(self),
                    old(blocks).view(old(metas)@),
                    lines@,
                );
                let (u, second) = block_taken(w);
                &&& r == (first && second is Some)
                &&& final(blocks).view(final(metas)@) == u
                &&& *final(self) == if r {
                    large_at(n, second->0)
                } else {
                    n
                }
            }),
            final(metas)@.len() == old(metas)@.len(),
            heap_ok(*final(self), final(blocks).view(final(metas)@), lines@),
    {
        let first: bool = self.new_block(blocks, metas, lines);
        let second: Option<usize> = blocks.get_free_block(metas);
        if !first {
            return false;
        }
        match second {
            None => false,
            Some(b) => {
                assert(b * BLOCK_TOTAL_SIZE + BLOCK_TOTAL_SIZE <= metas@.len() * BLOCK_TOTAL_SIZE)
                    by (nonlinear_arith)
                    requires
                        b < metas@.len(),
                ;
                let start: usize = self.heap_start + b * BLOCK_TOTAL_SIZE;
                self.large_block = b;
                self.large_block_start = start;
                self.large_cursor = start;
                self.large_limit = start + BLOCK_TOTAL_SIZE;
                true
            },
        }
    }

    /// Whether a collection is worth a try before giving up, after `retries` of them.
    pub fn should_retry(retries: usize) -> (r: bool)
        ensures
            r == (retries < 5),
    {
        retries < INIT_RETRIES
    }

    /// Allocates with the second cursor.
    pub fn overflow_allocation(
        &mut self,
        blocks: &mut BlockAllocator,
        metas: &mut Vec<BlockMeta>,
        size: usize,
    ) -> (r: Option<usize>)
        requires
            blocks_ok(old(blocks).view(old(metas)@)),
            old(self).heap_start + old(metas)@.len() * BLOCK_TOTAL_SIZE <= usize::MAX,
            size <= BLOCK_TOTAL_SIZE,
            old(self).large_cursor + size <= usize::MAX,
        ensures
            (*final(self), final(blocks).view(final(metas)@), r) == overflowed(
                *old(self),
                old(blocks).view(old(metas)@),
                size as int,
            ),
            final(metas)@.len() == old(metas)@.len(),
            blocks_ok(final(blocks).view(final(metas)@)),
    {
        let mut start: usize = self.large_cursor;
        if start + size > self.large_limit {
            match blocks.get_free_block(metas) {
                None => {
                    return None;
                },
                Some(b) => {
                    assert(b * BLOCK_TOTAL_SIZE + BLOCK_TOTAL_SIZE <= metas@.len()
                        * BLOCK_TOTAL_SIZE) by (nonlinear_arith)
                        requires
                            b < metas@.len(),
                    ;
                    start = self.heap_start + b * BLOCK_TOTAL_SIZE;
                    self.large_block = b;
                    self.large_block_start = start;
                    self.large_cursor = start;
                    self.large_limit = start + BLOCK_TOTAL_SIZE;
                },
            }
        }
        self.large_cursor = start + size;
        Some(start)
    }

    /// Allocates `size` bytes, and returns their address. The bytes are to be cleared.
    pub fn allocate(
        &mut self,
        blocks: &mut BlockAllocator,
        metas: &mut Vec<BlockMeta>,
        lines: &Vec<FreeLineMeta>,
        size: usize,
    ) -> (r: Option<usize>)
        requires
            heap_ok(*old(self), old(blocks).view(old(metas)@), lines@),
            recycled_ok(old(blocks).view(old(metas)@), lines@),
            old(self).block < old(metas)@.len(),
            old(metas)@[old(self).block as int].first_free_line is Some ==> has_lines(
                old(metas)@,
                lines@,
                old(self).block as int,
            ),
            old(self).block_start == start_of(
                old(self).heap_start as int,
                old(self).block as int,
            ),
            size <= BLOCK_TOTAL_SIZE,
            old(self).cursor + size <= usize::MAX,
            old(self).large_cursor + size <= usize::MAX,
        ensures
            (*final(self), final(blocks).view(final(metas)@), r) == allocated(
                *old(self),
                old(blocks).view(old(metas)@),
                lines@,
                size as int,
            ),
            final(metas)@.len() == old(metas)@.len(),
            heap_ok(*final(self), final(blocks).view(final(metas)@), lines@),
            in_order(*old(self), old(blocks).view(old(metas)@), lines@) ==> {
                &&& in_order(*final(self), final(blocks).view(final(metas)@), lines@)
                &&& r matches Some(p) ==> handed_out(
                    *old(self),
                    old(blocks).view(old(metas)@),
                    *final(self),
                    final(blocks).view(final(metas)@),
                    lines@,
                    p as int,
                    size as int,
                )
            },
    {
        proof {
            if in_order(*self, blocks.view(metas@), lines@) {
                lemma_allocated(*self, blocks.view(metas@), lines@, size as int);
            }
        }
        if self.cursor + size > self.limit {
            if size > LINE_SIZE {
                return self.overflow_allocation(blocks, metas, size);
            }
            if !self.get_next_line(blocks, metas, lines) {
                return None;
            }
        }
        let start: usize = self.cursor;
        self.cursor = start + size;
        Some(start)
    }

    /// Moves to the next free lines.
    pub fn get_next_line(
        &mut self,
        blocks: &mut BlockAllocator,
        metas: &mut Vec<BlockMeta>,
        lines: &Vec<FreeLineMeta>,
    ) -> (r: bool)
        requires
            heap_ok(*old(self), old(blocks).view(old(metas)@), lines@),
            recycled_ok(old(blocks).view(old(metas)@), lines@),
            old(self).block < old(metas)@.len(),
            old(metas)@[old(self).block as int].first_free_line is Some ==> has_lines(
                old(metas)@,
                lines@,
                old(self).block as int,
            ),
            old(self).block_start == start_of(
                old(self).heap_start as int,
                old(self).block as int,
            ),
        ensures
            (*final(self), final(blocks).view(final(metas)@), r) == next_line(
                *old(self),
                old(blocks).view(old(metas)@),
                lines@,
            ),
            r ==> final(self).cursor + LINE_SIZE <= final(self).limit,
            final(metas)@.len() == old(metas)@.len(),
            heap_ok(*final(self), final(blocks).view(final(metas)@), lines@),
    {
        let b: usize = self.block;
        match metas[b].first_free_line {
            None => self.new_block(blocks, metas, lines),
            Some(line) => {
                self.use_line(blocks, metas, lines, b, line);
                true
            },
        }
    }

    /// Moves to the first free lines of a block.
    fn use_line(
        &mut self,
        blocks: &BlockAllocator,
        metas: &mut Vec<BlockMeta>,
        lines: &Vec<FreeLineMeta>,
        b: usize,
        line: u8,
    )
        requires
            heap_ok(*old(self), blocks.view(old(metas)@), lines@),
            has_lines(old(metas)@, lines@, b as int),
            old(metas)@[b as int].first_free_line == Some(line),
        ensures
            *final(self) == at_line(*old(self), old(metas)@, lines@, b as int),
            final(metas)@ == line_taken(old(metas)@, lines@, b as int),
            final(self).cursor + LINE_SIZE <= final(self).limit,
            heap_ok(*final(self), blocks.view(final(metas)@), lines@),
    {
        let ghost v = blocks.view(metas@);
        proof {
            assert(b * BLOCK_TOTAL_SIZE + BLOCK_TOTAL_SIZE <= metas@.len() * BLOCK_TOTAL_SIZE)
                by (nonlinear_arith)
                requires
                    b < metas@.len(),
            ;
            assert(b * LINE_COUNT + LINE_COUNT <= metas@.len() * LINE_COUNT) by (nonlinear_arith)
                requires
                    b < metas@.len(),
            ;
            assert(lines@.len() == lines.len());
        }
        let meta: FreeLineMeta = lines[b * LINE_COUNT + line as usize];
        let cursor: usize = self.heap_start + b * BLOCK_TOTAL_SIZE + line as usize * LINE_SIZE;
        self.cursor = cursor;
        self.limit = cursor + meta.size as usize * LINE_SIZE;
        let header: BlockMeta = metas[b];
        proof {
            lemma_lines_noted(v, b as int, meta.next);
        }
        metas.set(
            b,
            BlockMeta {
                flag: header.flag,
                humongous_size: header.humongous_size,
                first_free_line: meta.next,
            },
        );
        proof {
            assert(blocks.view(metas@) =~= (BlocksView { metas: metas@, ..v }));
        }
    }

    /// Moves to the next block.
    pub fn new_block(
        &mut self,
        blocks: &mut BlockAllocator,
        metas: &mut Vec<BlockMeta>,
        lines: &Vec<FreeLineMeta>,
    ) -> (r: bool)
        requires
            heap_ok(*old(self), old(blocks).view(old(metas)@), lines@),
            recycled_ok(old(blocks).view(old(metas)@), lines@),
        ensures
            (*final(self), final(blocks).view(final(metas)@), r) == next_block(
                *old(self),
                old(blocks).view(old(metas)@),
                lines@,
            ),
            r ==> final(self).cursor + LINE_SIZE <= final(self).limit,
            final(metas)@.len() == old(metas)@.len(),
            heap_ok(*final(self), final(blocks).view(final(metas)@), lines@),
    {
        let ghost v = blocks.view(metas@);
        let recycled: Option<usize> = blocks.try_recycled();
        proof {
            assert(blocks.view(metas@) =~= recycled_taken(v).0);
        }
        match recycled {
            Some(b) => {
                proof {
                    assert(b * BLOCK_TOTAL_SIZE + BLOCK_TOTAL_SIZE <= metas@.len()
                        * BLOCK_TOTAL_SIZE) by (nonlinear_arith)
                        requires
                            b < metas@.len(),
                    ;
                }
                let start: usize = self.heap_start + b * BLOCK_TOTAL_SIZE;
                let line: u8 = match metas[b].first_free_line {
                    Some(line) => line,
                    None => 0,
                };
                self.use_line(blocks, metas, lines, b, line);
                self.block = b;
                self.block_start = start;
                proof {
                    assert(blocks.view(metas@) =~= next_block(*old(self), v, lines@).1);
                }
                true
            },
            None => {
                match blocks.get_free_block(metas) {
                    None => false,
                    Some(b) => {
                        let ghost u = blocks.view(metas@);
                        proof {
                            assert(b * BLOCK_TOTAL_SIZE + BLOCK_TOTAL_SIZE <= metas@.len()
                                * BLOCK_TOTAL_SIZE) by (nonlinear_arith)
                                requires
                                    b < metas@.len(),
                            ;
                            lemma_lines_noted(u, b as int, None);
                        }
                        let start: usize = self.heap_start + b * BLOCK_TOTAL_SIZE;
                        self.cursor = start;
                        self.limit = start + BLOCK_TOTAL_SIZE;
                        let header: BlockMeta = metas[b];
                        metas.set(
                            b,
                            BlockMeta {
                                flag: header.flag,
                                humongous_size: header.humongous_size,
                                first_free_line: None,
                            },
                        );
                        self.block = b;
                        self.block_start = start;
                        proof {
                            assert(blocks.view(metas@) =~= (BlocksView { metas: metas@, ..u }));
                        }
                        true
                    },
                }
            },
        }
    }
}

/// An object that is allocated where there is room lies between the cursor and the limit,
/// and the next one comes after it.
pub proof fn lemma_allocated_apart(
    a: Allocator,
    v: BlocksView,
    lines: Seq<FreeLineMeta>,
    size: int,
    next: int,
)
    requires
        0 <= size,
        0 <= next,
        a.cursor + size + next <= a.limit,
    ensures
        ({
            let (b, w, first) = allocated(a, v, lines, size);
            let (c, u, second) = allocated(b, w, lines, next);
            &&& first == Some(a.cursor)
            &&& second == Some((a.cursor + size) as usize)
            &&& c.cursor <= c.limit
        }),
{
}

/// The block that an address lies in.
pub open spec fn block_of(heap_start: int, x: int) -> int {
    (x - heap_start) / (BLOCK_TOTAL_SIZE as int)
}

/// The line of its block that an address lies in.
pub open spec fn line_of(heap_start: int, x: int) -> int {
    ((x - heap_start) % (BLOCK_TOTAL_SIZE as int)) / (LINE_SIZE as int)
}

/// Whether a line of a block is free, if its free lines start at `first`.
pub open spec fn in_chain(lines: Seq<FreeLineMeta>, b: int, first: Option<u8>, l: int) -> bool
    decreases
            if first is Some {
                256 - first->0
            } else {
                0
            },
{
    match first {
        None => false,
        Some(i) => {
            let m = line_at(lines, b, i as int);
            i <= l < i + m.size || (m.next matches Some(j) && i < j && in_chain(
                lines,
                b,
                m.next,
                l,
            ))
        },
    }
}

/// Whether the free lines of a block are in order: every run has lines, they lie in the
/// block, and the next run comes after it.
pub open spec fn chain_ok(lines: Seq<FreeLineMeta>, b: int, first: Option<u8>) -> bool
    decreases
            if first is Some {
                256 - first->0
            } else {
                0
            },
{
    match first {
        None => true,
        Some(i) => {
            let m = line_at(lines, b, i as int);
            &&& m.size > 0
            &&& i + m.size <= LINE_COUNT
            &&& m.next matches Some(j) ==> i + m.size <= j && chain_ok(lines, b, m.next)
        },
    }
}

/// Whether an address lies in a free line of block `b`.
pub open spec fn in_lines(
    heap_start: int,
    v: BlocksView,
    lines: Seq<FreeLineMeta>,
    b: int,
    x: int,
) -> bool {
    &&& heap_start <= x
    &&& block_of(heap_start, x) == b
    &&& 0 <= b < v.metas.len()
    &&& in_chain(lines, b, v.metas[b].first_free_line, line_of(heap_start, x))
}

/// Whether an address lies in a free block, or in a free line of a block that waits.
pub open spec fn in_stock(heap_start: int, v: BlocksView, lines: Seq<FreeLineMeta>, x: int) -> bool {
    let c = block_of(heap_start, x);
    heap_start <= x && (free_block(v, c) || (v.recycled.contains(c as usize) && in_lines(
        heap_start,
        v,
        lines,
        c,
        x,
    )))
}

/// Whether an address can still be handed out by an allocator: it lies in front of one of
/// the limits, in a free line of the block, in a free block, or in a free line of a block
/// that waits.
pub open spec fn offered(a: Allocator, v: BlocksView, lines: Seq<FreeLineMeta>, x: int) -> bool {
    ||| a.cursor <= x < a.limit
    ||| a.large_cursor <= x < a.large_limit
    ||| in_lines(a.heap_start as int, v, lines, a.block as int, x)
    ||| in_stock(a.heap_start as int, v, lines, x)
}

/// Whether the blocks that wait are in order: they have free lines, and are neither free nor
/// there twice.
pub open spec fn stock_ok(a: Allocator, v: BlocksView, lines: Seq<FreeLineMeta>) -> bool {
    &&& heap_ok(a, v, lines)
    &&& v.recycled.no_duplicates()
    &&& forall|k: int|
        0 <= k < v.recycled.len() ==> {
            &&& (#[trigger] v.recycled[k]) < v.metas.len()
            &&& !free_block(v, v.recycled[k] as int)
            &&& v.metas[v.recycled[k] as int].first_free_line is Some
            &&& chain_ok(
                lines,
                v.recycled[k] as int,
                v.metas[v.recycled[k] as int].first_free_line,
            )
        }
}

/// Whether `cursor..limit` lies within a block, if it is not empty.
pub open spec fn within_block(
    heap_start: int,
    blocks: int,
    block: int,
    cursor: int,
    limit: int,
) -> bool {
    cursor < limit ==> {
        &&& 0 <= block < blocks
        &&& start_of(heap_start, block) <= cursor
        &&& limit <= start_of(heap_start, block) + BLOCK_TOTAL_SIZE
    }
}

/// Whether the block of an allocator is in order: its free lines are, and it neither waits
/// nor is free while it has any.
pub open spec fn block_ok(a: Allocator, v: BlocksView, lines: Seq<FreeLineMeta>) -> bool {
    &&& a.block < v.metas.len()
    &&& a.block_start == start_of(a.heap_start as int, a.block as int)
    &&& !v.recycled.contains(a.block)
    &&& chain_ok(lines, a.block as int, v.metas[a.block as int].first_free_line)
    &&& v.metas[a.block as int].first_free_line is Some ==> !free_block(v, a.block as int)
}

/// Whether an address is not offered twice: if it is in front of one limit, it is not in
/// front of the other one, nor in a free line or a free block.
pub open spec fn offered_once(
    a: Allocator,
    v: BlocksView,
    lines: Seq<FreeLineMeta>,
    x: int,
) -> bool {
    &&& a.cursor <= x < a.limit ==> !(a.large_cursor <= x < a.large_limit)
    &&& a.cursor <= x < a.limit || a.large_cursor <= x < a.large_limit ==> {
        &&& !in_lines(a.heap_start as int, v, lines, a.block as int, x)
        &&& !in_stock(a.heap_start as int, v, lines, x)
    }
}

/// Whether an allocator and the blocks that it takes from are in order.
pub open spec fn in_order(a: Allocator, v: BlocksView, lines: Seq<FreeLineMeta>) -> bool {
    &&& stock_ok(a, v, lines)
    &&& block_ok(a, v, lines)
    &&& within_block(
        a.heap_start as int,
        v.metas.len() as int,
        a.block as int,
        a.cursor as int,
        a.limit as int,
    )
    &&& within_block(
        a.heap_start as int,
        v.metas.len() as int,
        a.large_block as int,
        a.large_cursor as int,
        a.large_limit as int,
    )
    &&& forall|x: int| #[trigger] offered_once(a, v, lines, x)
}

/// Where the lines of a block are.
proof fn lemma_place(heap_start: int, b: int, l: int, n: int, x: int)
    requires
        0 <= heap_start,
        0 <= b,
        0 <= l,
        l + n <= LINE_COUNT,
        start_of(heap_start, b) + l * LINE_SIZE <= x < start_of(heap_start, b) + (l + n)
            * LINE_SIZE,
    ensures
        heap_start <= x,
        block_of(heap_start, x) == b,
        l <= line_of(heap_start, x) < l + n,
{
    let r = x - heap_start - b * BLOCK_TOTAL_SIZE;
    assert(0 <= r < BLOCK_TOTAL_SIZE);
    assert((x - heap_start) / 32768 == b && (x - heap_start) % 32768 == r) by (nonlinear_arith)
        requires
            x - heap_start == b * 32768 + r,
            0 <= r < 32768,
    ;
}

/// The first run of free lines is apart from the others.
proof fn lemma_chain(lines: Seq<FreeLineMeta>, b: int, first: Option<u8>)
    requires
        chain_ok(lines, b, first),
    ensures
        first matches Some(i) ==> {
            let m = line_at(lines, b, i as int);
            &&& chain_ok(lines, b, m.next)
            &&& forall|l: int| #[trigger]
                in_chain(lines, b, first, l) <==> i <= l < i + m.size || in_chain(
                    lines,
                    b,
                    m.next,
                    l,
                )
            &&& forall|l: int| #[trigger] in_chain(lines, b, m.next, l) ==> i + m.size <= l
        },
    decreases
            if first is Some {
                256 - first->0
            } else {
                0
            },
{
    if let Some(i) = first {
        let m = line_at(lines, b, i as int);
        if m.next is Some {
            lemma_chain(lines, b, m.next);
        }
    }
}

/// Moving to the first free lines of a block takes them from the free lines.
proof fn lemma_at_line(a: Allocator, v: BlocksView, lines: Seq<FreeLineMeta>, b: int)
    requires
        heap_ok(a, v, lines),
        0 <= b < v.metas.len(),
        v.metas[b].first_free_line is Some,
        chain_ok(lines, b, v.metas[b].first_free_line),
    ensures
        ({
            let n = at_line(a, v.metas, lines, b);
            let w = BlocksView { metas: line_taken(v.metas, lines, b), ..v };
            let h = a.heap_start as int;
            &&& chain_ok(lines, b, w.metas[b].first_free_line)
            &&& n.cursor + LINE_SIZE <= n.limit
            &&& within_block(h, v.metas.len() as int, b, n.cursor as int, n.limit as int)
            &&& forall|x: int|
                n.cursor <= x < n.limit ==> block_of(h, x) == b && in_lines(h, v, lines, b, x)
                    && !#[trigger] in_lines(h, w, lines, b, x)
            &&& forall|x: int| #[trigger] in_lines(h, w, lines, b, x) ==> in_lines(h, v, lines, b, x)
        }),
{
    let n = at_line(a, v.metas, lines, b);
    let w = BlocksView { metas: line_taken(v.metas, lines, b), ..v };
    let h = a.heap_start as int;
    let first = v.metas[b].first_free_line;
    let i = first->0;
    let m = line_at(lines, b, i as int);
    lemma_chain(lines, b, first);
    let cursor = start_of(h, b) + i * LINE_SIZE;
    assert(b * BLOCK_TOTAL_SIZE + BLOCK_TOTAL_SIZE <= v.metas.len() * BLOCK_TOTAL_SIZE)
        by (nonlinear_arith)
        requires
            b < v.metas.len(),
    ;
    assert(n.cursor == cursor && n.limit == cursor + m.size * LINE_SIZE);
    assert(w.metas[b].first_free_line == m.next);
    assert forall|x: int| n.cursor <= x < n.limit implies block_of(h, x) == b && in_lines(
        h,
        v,
        lines,
        b,
        x,
    ) && !#[trigger] in_lines(h, w, lines, b, x) by {
        lemma_place(h, b, i as int, m.size as int, x);
        assert(in_chain(lines, b, first, line_of(h, x)));
        if in_chain(lines, b, m.next, line_of(h, x)) {
            assert(false);
        }
    }
    assert forall|x: int| #[trigger] in_lines(h, w, lines, b, x) implies in_lines(
        h,
        v,
        lines,
        b,
        x,
    ) by {
        assert(in_chain(lines, b, m.next, line_of(h, x)));
        assert(in_chain(lines, b, first, line_of(h, x)));
    }
}

/// What a new block is taken from.
pub open spec fn took_from(
    a: Allocator,
    v: BlocksView,
    w: BlocksView,
    lines: Seq<FreeLineMeta>,
    cursor: int,
    limit: int,
) -> bool {
    &&& forall|x: int|
        cursor <= x < limit ==> in_stock(a.heap_start as int, v, lines, x) && !#[trigger] in_stock(
            a.heap_start as int,
            w,
            lines,
            x,
        )
    &&& forall|x: int| #[trigger]
        in_stock(a.heap_start as int, w, lines, x) ==> in_stock(a.heap_start as int, v, lines, x)
}

/// Taking a free block takes it from the stock.
proof fn lemma_fresh_block(a: Allocator, v: BlocksView, lines: Seq<FreeLineMeta>)
    requires
        stock_ok(a, v, lines),
    ensures
        ({
            let (w, r) = block_taken(v);
            let start = start_of(a.heap_start as int, r->0);
            &&& stock_ok(a, w, lines)
            &&& w.recycled == v.recycled
            &&& r is None ==> forall|x: int| #[trigger]
                in_stock(a.heap_start as int, w, lines, x) ==> in_stock(
                    a.heap_start as int,
                    v,
                    lines,
                    x,
                )
            &&& r is Some ==> {
                &&& 0 <= r->0 < v.metas.len()
                &&& !v.recycled.contains(r->0 as usize)
                &&& !free_block(w, r->0)
                &&& 0 <= start && start + BLOCK_TOTAL_SIZE <= usize::MAX
                &&& took_from(a, v, w, lines, start, start + BLOCK_TOTAL_SIZE)
                &&& forall|x: int|
                    start <= x < start + BLOCK_TOTAL_SIZE ==> #[trigger] block_of(
                        a.heap_start as int,
                        x,
                    ) == r->0
            }
        }),
{
    let (w, r) = block_taken(v);
    let h = a.heap_start as int;
    lemma_block_taken(v);
    assert forall|k: int| 0 <= k < w.recycled.len() implies {
        &&& (#[trigger] w.recycled[k]) < w.metas.len()
        &&& !free_block(w, w.recycled[k] as int)
        &&& w.metas[w.recycled[k] as int].first_free_line is Some
        &&& chain_ok(lines, w.recycled[k] as int, w.metas[w.recycled[k] as int].first_free_line)
    } by {
        assert(v.recycled[k] < v.metas.len() && !free_block(v, v.recycled[k] as int));
        assert(w.metas[v.recycled[k] as int] == v.metas[v.recycled[k] as int]);
    }
    assert forall|x: int| #[trigger] in_stock(h, w, lines, x) implies in_stock(
        h,
        v,
        lines,
        x,
    ) by {
        let c = block_of(h, x);
        if !free_block(w, c) {
            assert(w.metas[c].first_free_line == v.metas[c].first_free_line);
        }
    }
    if let Some(b) = r {
        let start = start_of(h, b);
        assert(b * BLOCK_TOTAL_SIZE + BLOCK_TOTAL_SIZE <= v.metas.len() * BLOCK_TOTAL_SIZE)
            by (nonlinear_arith)
            requires
                b < v.metas.len(),
        ;
        assert(!v.recycled.contains(b as usize)) by {
            if v.recycled.contains(b as usize) {
                let k = choose|k: int| 0 <= k < v.recycled.len() && v.recycled[k] == b as usize;
                assert(!free_block(v, v.recycled[k] as int));
            }
        }
        assert forall|x: int| start <= x < start + BLOCK_TOTAL_SIZE implies #[trigger] block_of(
            h,
            x,
        ) == b by {
            lemma_place(h, b, 0, LINE_COUNT as int, x);
        }
        assert forall|x: int| start <= x < start + BLOCK_TOTAL_SIZE implies in_stock(
            h,
            v,
            lines,
            x,
        ) && !#[trigger] in_stock(h, w, lines, x) by {
            lemma_place(h, b, 0, LINE_COUNT as int, x);
            assert(free_block(v, block_of(h, x)));
            assert(!free_block(w, b));
        }
    }
}

/// Whether an allocator has moved its cursor to lines or a block that it took from the
/// stock.
pub open spec fn moved_on(
    a: Allocator,
    v: BlocksView,
    n: Allocator,
    w: BlocksView,
    lines: Seq<FreeLineMeta>,
) -> bool {
    let h = a.heap_start as int;
    &&& n == (Allocator {
        block: n.block,
        block_start: n.block_start,
        cursor: n.cursor,
        limit: n.limit,
        ..a
    })
    &&& block_ok(n, w, lines)
    &&& n.cursor + LINE_SIZE <= n.limit
    &&& within_block(h, v.metas.len() as int, n.block as int, n.cursor as int, n.limit as int)
    &&& took_from(a, v, w, lines, n.cursor as int, n.limit as int)
    &&& forall|x: int| n.cursor <= x < n.limit ==> !#[trigger] in_lines(h, w, lines, n.block as int, x)
    &&& forall|x: int| #[trigger]
        in_lines(h, w, lines, n.block as int, x) ==> in_stock(h, v, lines, x) && !in_stock(
            h,
            w,
            lines,
            x,
        )
}

/// Moving to a block takes its lines, or all of it, from the stock.
proof fn lemma_next_block(a: Allocator, v: BlocksView, lines: Seq<FreeLineMeta>)
    requires
        stock_ok(a, v, lines),
    ensures
        ({
            let (n, w, moved) = next_block(a, v, lines);
            &&& stock_ok(n, w, lines)
            &&& w.metas.len() == v.metas.len()
            &&& moved ==> moved_on(a, v, n, w, lines)
            &&& !moved ==> {
                &&& n == a
                &&& w.metas == v.metas
                &&& w.recycled == v.recycled
                &&& forall|c: int| #[trigger] free_block(w, c) <==> free_block(v, c)
            }
            &&& !moved <==> (v.recycled_count == 0 || v.recycled.len() == 0) && v.smallest.0
                >= v.smallest.1 && none_from(v, v.min)
        }),
{
    let h = a.heap_start as int;
    let (u, r) = recycled_taken(v);
    let (n, w, moved) = next_block(a, v, lines);
    if let Some(b) = r {
        assert(v.recycled[0] == b);
        lemma_at_line(a, u, lines, b);
        assert(b * BLOCK_TOTAL_SIZE + BLOCK_TOTAL_SIZE <= v.metas.len() * BLOCK_TOTAL_SIZE)
            by (nonlinear_arith)
            requires
                b < v.metas.len(),
        ;
        assert(n.block == b && n.block_start == start_of(h, b));
        lemma_lines_noted(u, b, w.metas[b].first_free_line);
        assert(w.lists == v.lists && w.smallest == v.smallest && w.coalescing == v.coalescing);
        assert forall|c: int| #[trigger] free_block(w, c) <==> free_block(v, c) by {}
        assert(!w.recycled.contains(b as usize)) by {
            if w.recycled.contains(b as usize) {
                let k = choose|k: int| 0 <= k < w.recycled.len() && w.recycled[k] == b as usize;
                assert(v.recycled[k + 1] == v.recycled[0]);
            }
        }
        assert forall|k: int| 0 <= k < w.recycled.len() implies {
            &&& (#[trigger] w.recycled[k]) < w.metas.len()
            &&& !free_block(w, w.recycled[k] as int)
            &&& w.metas[w.recycled[k] as int].first_free_line is Some
            &&& chain_ok(lines, w.recycled[k] as int, w.metas[w.recycled[k] as int].first_free_line)
        } by {
            assert(w.recycled[k] == v.recycled[k + 1]);
            assert(w.recycled.contains(w.recycled[k]));
            assert(w.metas[w.recycled[k] as int] == v.metas[w.recycled[k] as int]);
        }
        assert(w.recycled.no_duplicates());
        assert(v.recycled.contains(v.recycled[0]));
        assert forall|x: int| #[trigger] in_stock(h, w, lines, x) implies in_stock(
            h,
            v,
            lines,
            x,
        ) && block_of(h, x) != b by {
            let c = block_of(h, x);
            if !free_block(w, c) {
                let k = choose|k: int| 0 <= k < w.recycled.len() && w.recycled[k] == c as usize;
                assert(v.recycled[k + 1] == c as usize);
                assert(v.recycled.contains(c as usize));
                assert(w.metas[c] == v.metas[c]);
            } else {
                assert(!free_block(v, v.recycled[0] as int));
            }
        }
        assert forall|x: int| #[trigger] in_lines(h, u, lines, b, x) implies in_stock(
            h,
            v,
            lines,
            x,
        ) by {
            assert(in_lines(h, v, lines, b, x));
        }
        assert forall|x: int| n.cursor <= x < n.limit implies in_stock(h, v, lines, x)
            && !#[trigger] in_stock(h, w, lines, x) by {
            assert(!in_lines(h, w, lines, b, x));
            assert(in_lines(h, u, lines, b, x));
        }
        assert(took_from(a, v, w, lines, n.cursor as int, n.limit as int));
        assert forall|x: int| #[trigger] in_lines(h, w, lines, n.block as int, x) implies in_stock(
            h,
            v,
            lines,
            x,
        ) && !in_stock(h, w, lines, x) by {
            assert(in_lines(h, u, lines, b, x));
        }
    } else {
        assert(stock_ok(a, u, lines)) by {
            assert(u.recycled == v.recycled);
            assert forall|c: int| #[trigger] free_block(u, c) <==> free_block(v, c) by {}
            assert forall|k: int| 0 <= k < u.recycled.len() implies {
                &&& (#[trigger] u.recycled[k]) < u.metas.len()
                &&& !free_block(u, u.recycled[k] as int)
                &&& u.metas[u.recycled[k] as int].first_free_line is Some
                &&& chain_ok(
                    lines,
                    u.recycled[k] as int,
                    u.metas[u.recycled[k] as int].first_free_line,
                )
            } by {
                assert(v.recycled[k] < v.metas.len());
            }
        }
        lemma_fresh_block(a, u, lines);
        lemma_block_taken(u);
        assert forall|c: int| #[trigger] free_block(u, c) <==> free_block(v, c) by {}
        assert(none_from(u, u.min) <==> none_from(v, v.min)) by {
            assert(u.lists == v.lists && u.min == v.min);
        }
        let (t, s) = block_taken(u);
        if let Some(b) = s {
            assert(b * BLOCK_TOTAL_SIZE + BLOCK_TOTAL_SIZE <= v.metas.len() * BLOCK_TOTAL_SIZE)
                by (nonlinear_arith)
                requires
                    b < v.metas.len(),
            ;
            lemma_lines_noted(t, b, None);
            assert forall|c: int| #[trigger] free_block(w, c) <==> free_block(t, c) by {}
            assert forall|k: int| 0 <= k < w.recycled.len() implies {
                &&& (#[trigger] w.recycled[k]) < w.metas.len()
                &&& !free_block(w, w.recycled[k] as int)
                &&& w.metas[w.recycled[k] as int].first_free_line is Some
                &&& chain_ok(
                    lines,
                    w.recycled[k] as int,
                    w.metas[w.recycled[k] as int].first_free_line,
                )
            } by {
                assert(t.recycled[k] < t.metas.len());
                assert(v.recycled.contains(v.recycled[k]));
                assert(w.metas[w.recycled[k] as int] == t.metas[w.recycled[k] as int]);
            }
            assert forall|x: int| #[trigger] in_stock(h, w, lines, x) implies in_stock(
                h,
                t,
                lines,
                x,
            ) by {
                let c = block_of(h, x);
                if !free_block(w, c) {
                    assert(c != b);
                    assert(w.metas[c] == t.metas[c]);
                }
            }
            assert forall|x: int| #[trigger] in_stock(h, u, lines, x) implies in_stock(
                h,
                v,
                lines,
                x,
            ) by {}
            assert forall|x: int| n.cursor <= x < n.limit implies in_stock(h, v, lines, x)
                && !#[trigger] in_stock(h, w, lines, x) by {
                assert(!in_stock(h, t, lines, x));
                assert(in_stock(h, u, lines, x));
            }
            assert(took_from(a, v, w, lines, n.cursor as int, n.limit as int)) by {
                assert forall|x: int| #[trigger] in_stock(h, w, lines, x) implies in_stock(
                    h,
                    v,
                    lines,
                    x,
                ) by {
                    assert(in_stock(h, t, lines, x));
                    assert(in_stock(h, u, lines, x));
                }
            }
            assert forall|x: int| !#[trigger] in_lines(h, w, lines, n.block as int, x) by {
                assert(w.metas[b].first_free_line is None);
            }
        }
    }
}

/// An object at the cursor is taken from what is in front of the limit.
proof fn lemma_taken_at_cursor(a: Allocator, v: BlocksView, lines: Seq<FreeLineMeta>, size: int)
    requires
        in_order(a, v, lines),
        0 <= size,
        a.cursor + size <= a.limit,
    ensures
        ({
            let b = Allocator { cursor: (a.cursor + size) as usize, ..a };
            &&& in_order(b, v, lines)
            &&& forall|x: int| #[trigger] offered(b, v, lines, x) ==> offered(a, v, lines, x)
            &&& forall|x: int|
                a.cursor <= x < a.cursor + size ==> offered(a, v, lines, x) && !#[trigger] offered(
                    b,
                    v,
                    lines,
                    x,
                )
            &&& a.cursor + size <= a.large_cursor || a.large_limit <= a.cursor || size == 0
                || a.large_cursor >= a.large_limit
        }),
{
    let b = Allocator { cursor: (a.cursor + size) as usize, ..a };
    let h = a.heap_start as int;
    assert forall|x: int| #[trigger] offered_once(b, v, lines, x) by {
        assert(offered_once(a, v, lines, x));
    }
    assert forall|x: int| a.cursor <= x < a.cursor + size implies offered(a, v, lines, x)
        && !#[trigger] offered(b, v, lines, x) by {
        assert(offered_once(a, v, lines, x));
    }
    if size > 0 && a.large_cursor < a.large_limit {
        let x = if a.cursor <= a.large_cursor {
            a.large_cursor as int
        } else {
            a.cursor as int
        };
        assert(offered_once(a, v, lines, x));
    }
}

/// An object at the second cursor is taken from what is in front of the second limit.
proof fn lemma_taken_at_large(a: Allocator, v: BlocksView, lines: Seq<FreeLineMeta>, size: int)
    requires
        in_order(a, v, lines),
        0 <= size,
        a.large_cursor + size <= a.large_limit,
    ensures
        ({
            let b = Allocator { large_cursor: (a.large_cursor + size) as usize, ..a };
            &&& in_order(b, v, lines)
            &&& forall|x: int| #[trigger] offered(b, v, lines, x) ==> offered(a, v, lines, x)
            &&& forall|x: int|
                a.large_cursor <= x < a.large_cursor + size ==> offered(a, v, lines, x)
                    && !#[trigger] offered(b, v, lines, x)
            &&& a.large_cursor + size <= a.cursor || a.limit <= a.large_cursor || size == 0
                || a.cursor >= a.limit
        }),
{
    let b = Allocator { large_cursor: (a.large_cursor + size) as usize, ..a };
    let h = a.heap_start as int;
    assert forall|x: int| #[trigger] offered_once(b, v, lines, x) by {
        assert(offered_once(a, v, lines, x));
    }
    assert forall|x: int| a.large_cursor <= x < a.large_cursor + size implies offered(
        a,
        v,
        lines,
        x,
    ) && !#[trigger] offered(b, v, lines, x) by {
        assert(offered_once(a, v, lines, x));
    }
    if size > 0 && a.cursor < a.limit {
        let x = if a.cursor <= a.large_cursor {
            a.large_cursor as int
        } else {
            a.cursor as int
        };
        assert(offered_once(a, v, lines, x));
    }
}

/// The second cursor moves to a free block.
proof fn lemma_lines_kept(a: Allocator, v: BlocksView, lines: Seq<FreeLineMeta>)
    requires
        in_order(a, v, lines),
    ensures
        ({
            let (w, r) = block_taken(v);
            let n = large_at(a, r->0);
            r is Some ==> {
                &&& in_order(n, w, lines)
                &&& n.large_cursor + BLOCK_TOTAL_SIZE == n.large_limit
                &&& forall|x: int| #[trigger] offered(n, w, lines, x) ==> offered(a, v, lines, x)
            }
        }),
{
    let (w, r) = block_taken(v);
    let h = a.heap_start as int;
    lemma_block_taken(v);
    lemma_fresh_block(a, v, lines);
    if let Some(c) = r {
        let n = large_at(a, c);
        let o = a.block as int;
        assert(n.large_cursor == start_of(h, c) && n.large_limit == start_of(h, c)
            + BLOCK_TOTAL_SIZE && n.large_block == c);
        assert(w.metas[o].first_free_line == v.metas[o].first_free_line);
        assert forall|x: int| #[trigger] in_lines(h, w, lines, o, x) <==> in_lines(
            h,
            v,
            lines,
            o,
            x,
        ) by {}
        assert forall|x: int| #[trigger] offered_once(n, w, lines, x) by {
            assert(offered_once(a, v, lines, x));
            assert(in_lines(h, w, lines, o, x) <==> in_lines(h, v, lines, o, x));
            assert(in_stock(h, w, lines, x) ==> in_stock(h, v, lines, x));
            if n.large_cursor <= x < n.large_limit {
                assert(!in_stock(h, w, lines, x) && in_stock(h, v, lines, x));
                assert(block_of(h, x) == c);
                if in_lines(h, v, lines, o, x) {
                    assert(o == c && free_block(v, o));
                    assert(false);
                }
            }
        }
        assert forall|x: int| #[trigger] offered(n, w, lines, x) implies offered(a, v, lines, x) by {
            if n.large_cursor <= x < n.large_limit {
                assert(!in_stock(h, w, lines, x));
                assert(in_stock(h, v, lines, x));
            } else if in_stock(h, w, lines, x) {
                assert(in_stock(h, v, lines, x));
            } else if in_lines(h, w, lines, o, x) {
                assert(in_lines(h, v, lines, o, x));
            }
        }
    }
}

/// An allocator that could take nothing offers what it did.
proof fn lemma_none_taken(a: Allocator, v: BlocksView, w: BlocksView, lines: Seq<FreeLineMeta>)
    requires
        in_order(a, v, lines),
        stock_ok(a, w, lines),
        w.metas == v.metas,
        w.recycled == v.recycled,
        forall|c: int| #[trigger] free_block(w, c) <==> free_block(v, c),
    ensures
        in_order(a, w, lines),
        forall|x: int| #[trigger] offered(a, w, lines, x) ==> offered(a, v, lines, x),
{
    let h = a.heap_start as int;
    assert forall|x: int| #[trigger] in_stock(h, w, lines, x) <==> in_stock(h, v, lines, x) by {}
    assert forall|b: int, x: int| #[trigger] in_lines(h, w, lines, b, x) <==> in_lines(
        h,
        v,
        lines,
        b,
        x,
    ) by {}
    assert forall|x: int| #[trigger] offered_once(a, w, lines, x) by {
        assert(offered_once(a, v, lines, x));
        assert(in_stock(h, w, lines, x) <==> in_stock(h, v, lines, x));
        assert(in_lines(h, w, lines, a.block as int, x) <==> in_lines(
            h,
            v,
            lines,
            a.block as int,
            x,
        ));
    }
    assert forall|x: int| #[trigger] offered(a, w, lines, x) implies offered(a, v, lines, x) by {
        assert(in_stock(h, w, lines, x) <==> in_stock(h, v, lines, x));
        assert(in_lines(h, w, lines, a.block as int, x) <==> in_lines(
            h,
            v,
            lines,
            a.block as int,
            x,
        ));
    }
}

/// The cursor moves to the next free lines of the block.
proof fn lemma_own_lines(a: Allocator, v: BlocksView, lines: Seq<FreeLineMeta>)
    requires
        in_order(a, v, lines),
        v.metas[a.block as int].first_free_line is Some,
    ensures
        ({
            let (n, w, moved) = next_line(a, v, lines);
            &&& moved
            &&& in_order(n, w, lines)
            &&& n.heap_start == a.heap_start
            &&& n.block == a.block
            &&& w.metas.len() == v.metas.len()
            &&& n.cursor + LINE_SIZE <= n.limit
            &&& forall|x: int| #[trigger] offered(n, w, lines, x) ==> offered(a, v, lines, x)
        }),
{
    let h = a.heap_start as int;
    let o = a.block as int;
    let (n, w, moved) = next_line(a, v, lines);
    lemma_at_line(a, v, lines, o);
    lemma_lines_noted(v, o, w.metas[o].first_free_line);
    assert forall|c: int| #[trigger] free_block(w, c) <==> free_block(v, c) by {}
    assert forall|k: int| 0 <= k < w.recycled.len() implies {
        &&& (#[trigger] w.recycled[k]) < w.metas.len()
        &&& !free_block(w, w.recycled[k] as int)
        &&& w.metas[w.recycled[k] as int].first_free_line is Some
        &&& chain_ok(lines, w.recycled[k] as int, w.metas[w.recycled[k] as int].first_free_line)
    } by {
        assert(v.recycled[k] < v.metas.len());
        assert(v.recycled.contains(v.recycled[k]));
        assert(w.metas[w.recycled[k] as int] == v.metas[w.recycled[k] as int]);
    }
    assert forall|x: int| #[trigger] in_stock(h, w, lines, x) <==> in_stock(h, v, lines, x) by {
        let c = block_of(h, x);
        if c != o && 0 <= c < v.metas.len() {
            assert(w.metas[c] == v.metas[c]);
        }
    }
    assert forall|x: int| #[trigger] offered_once(n, w, lines, x) by {
        assert(offered_once(a, v, lines, x));
        assert(in_stock(h, w, lines, x) <==> in_stock(h, v, lines, x));
        assert(in_lines(h, w, lines, o, x) ==> in_lines(h, v, lines, o, x));
        if n.cursor <= x < n.limit {
            assert(!in_lines(h, w, lines, o, x));
            assert(block_of(h, x) == o && in_lines(h, v, lines, o, x));
            assert(!free_block(v, o));
            assert(!in_stock(h, v, lines, x));
        }
    }
    assert forall|x: int| #[trigger] offered(n, w, lines, x) implies offered(a, v, lines, x) by {
        if n.cursor <= x < n.limit {
            assert(!in_lines(h, w, lines, o, x));
        }
        assert(in_stock(h, w, lines, x) <==> in_stock(h, v, lines, x));
        if in_lines(h, w, lines, o, x) {
            assert(in_lines(h, v, lines, o, x));
        }
    }
}

/// The cursor moves to another block.
proof fn lemma_moved_on(
    a: Allocator,
    v: BlocksView,
    n: Allocator,
    w: BlocksView,
    lines: Seq<FreeLineMeta>,
)
    requires
        in_order(a, v, lines),
        stock_ok(n, w, lines),
        w.metas.len() == v.metas.len(),
        moved_on(a, v, n, w, lines),
    ensures
        in_order(n, w, lines),
        forall|x: int| #[trigger] offered(n, w, lines, x) ==> offered(a, v, lines, x),
{
    let h = a.heap_start as int;
    let o = n.block as int;
    assert forall|x: int| #[trigger] offered_once(n, w, lines, x) by {
        assert(offered_once(a, v, lines, x));
        assert(in_stock(h, w, lines, x) ==> in_stock(h, v, lines, x));
        assert(in_lines(h, w, lines, o, x) ==> in_stock(h, v, lines, x));
        if n.cursor <= x < n.limit {
            assert(!in_stock(h, w, lines, x) && in_stock(h, v, lines, x));
            assert(!in_lines(h, w, lines, o, x));
        }
    }
    assert forall|x: int| #[trigger] offered(n, w, lines, x) implies offered(a, v, lines, x) by {
        if n.cursor <= x < n.limit {
            assert(!in_stock(h, w, lines, x));
            assert(in_stock(h, v, lines, x));
        }
        if in_stock(h, w, lines, x) {
            assert(in_stock(h, v, lines, x));
        }
        if in_lines(h, w, lines, o, x) {
            assert(in_stock(h, v, lines, x));
        }
    }
}

/// Whether the `size` bytes at `p` were offered, are not offered any more, and lie within
/// one block.
pub open spec fn handed_out(
    a: Allocator,
    v: BlocksView,
    b: Allocator,
    w: BlocksView,
    lines: Seq<FreeLineMeta>,
    p: int,
    size: int,
) -> bool {
    let h = a.heap_start as int;
    let blocks = v.metas.len() as int;
    &&& forall|x: int| p <= x < p + size ==> #[trigger] offered(a, v, lines, x)
    &&& forall|x: int| p <= x < p + size ==> !#[trigger] offered(b, w, lines, x)
    &&& 0 < size && b.cursor < b.limit ==> p + size <= b.cursor || b.limit <= p
    &&& 0 < size && b.large_cursor < b.large_limit ==> p + size <= b.large_cursor || b.large_limit
        <= p
    &&& within_block(h, blocks, b.block as int, p, p + size) || within_block(
        h,
        blocks,
        b.large_block as int,
        p,
        p + size,
    )
}

/// An object at a cursor that has moved is handed out by the allocator as it was.
proof fn lemma_handed_out(
    a: Allocator,
    v: BlocksView,
    n: Allocator,
    w: BlocksView,
    lines: Seq<FreeLineMeta>,
    size: int,
)
    requires
        in_order(n, w, lines),
        n.heap_start == a.heap_start,
        w.metas.len() == v.metas.len(),
        forall|x: int| #[trigger] offered(n, w, lines, x) ==> offered(a, v, lines, x),
        0 <= size,
        n.cursor + size <= n.limit,
    ensures
        ({
            let b = Allocator { cursor: (n.cursor + size) as usize, ..n };
            &&& in_order(b, w, lines)
            &&& forall|x: int| #[trigger] offered(b, w, lines, x) ==> offered(a, v, lines, x)
            &&& handed_out(a, v, b, w, lines, n.cursor as int, size)
        }),
{
    let b = Allocator { cursor: (n.cursor + size) as usize, ..n };
    lemma_taken_at_cursor(n, w, lines, size);
    assert forall|x: int| #[trigger] offered(b, w, lines, x) implies offered(a, v, lines, x) by {
        assert(offered(n, w, lines, x));
    }
    assert forall|x: int| n.cursor <= x < n.cursor + size implies !#[trigger] offered(
        b,
        w,
        lines,
        x,
    ) && offered(n, w, lines, x) by {}
    assert forall|x: int| n.cursor <= x < n.cursor + size implies #[trigger] offered(
        a,
        v,
        lines,
        x,
    ) by {
        assert(!offered(b, w, lines, x));
        assert(offered(n, w, lines, x));
    }
}

/// An object at a second cursor that has moved is handed out by the allocator as it was.
proof fn lemma_large_handed_out(
    a: Allocator,
    v: BlocksView,
    n: Allocator,
    w: BlocksView,
    lines: Seq<FreeLineMeta>,
    size: int,
)
    requires
        in_order(n, w, lines),
        n.heap_start == a.heap_start,
        w.metas.len() == v.metas.len(),
        forall|x: int| #[trigger] offered(n, w, lines, x) ==> offered(a, v, lines, x),
        0 <= size,
        n.large_cursor + size <= n.large_limit,
    ensures
        ({
            let b = Allocator { large_cursor: (n.large_cursor + size) as usize, ..n };
            &&& in_order(b, w, lines)
            &&& forall|x: int| #[trigger] offered(b, w, lines, x) ==> offered(a, v, lines, x)
            &&& handed_out(a, v, b, w, lines, n.large_cursor as int, size)
        }),
{
    let b = Allocator { large_cursor: (n.large_cursor + size) as usize, ..n };
    lemma_taken_at_large(n, w, lines, size);
    assert forall|x: int| #[trigger] offered(b, w, lines, x) implies offered(a, v, lines, x) by {
        assert(offered(n, w, lines, x));
    }
    assert forall|x: int| n.large_cursor <= x < n.large_cursor + size implies !#[trigger] offered(
        b,
        w,
        lines,
        x,
    ) && offered(n, w, lines, x) by {}
    assert forall|x: int| n.large_cursor <= x < n.large_cursor + size implies #[trigger] offered(
        a,
        v,
        lines,
        x,
    ) by {
        assert(!offered(b, w, lines, x));
        assert(offered(n, w, lines, x));
    }
}

/// What allocation does: an object lies where the allocator could still put one, within one
/// block, and nothing that it takes is offered again. An allocator offers no address that it
/// did not offer before, and fails only where there is nothing left to take.
pub proof fn lemma_allocated(a: Allocator, v: BlocksView, lines: Seq<FreeLineMeta>, size: int)
    requires
        in_order(a, v, lines),
        0 <= size <= BLOCK_TOTAL_SIZE,
    ensures
        ({
            let (b, w, r) = allocated(a, v, lines, size);
            &&& in_order(b, w, lines)
            &&& b.heap_start == a.heap_start
            &&& w.metas.len() == v.metas.len()
            &&& forall|x: int| #[trigger] offered(b, w, lines, x) ==> offered(a, v, lines, x)
            &&& r matches Some(p) ==> handed_out(a, v, b, w, lines, p as int, size)
            &&& r is None ==> b == a
            &&& r is None <==> {
                &&& a.limit < a.cursor + size
                &&& size > LINE_SIZE ==> a.large_limit < a.large_cursor + size
                &&& size <= LINE_SIZE ==> v.metas[a.block as int].first_free_line is None && (
                v.recycled_count == 0 || v.recycled.len() == 0)
                &&& v.smallest.0 >= v.smallest.1
                &&& none_from(v, v.min)
            }
        }),
{
    let (b, w, r) = allocated(a, v, lines, size);
    if a.cursor + size <= a.limit {
        lemma_handed_out(a, v, a, v, lines, size);
    } else if size > LINE_SIZE {
        if a.large_cursor + size <= a.large_limit {
            lemma_large_handed_out(a, v, a, v, lines, size);
        } else {
            lemma_block_taken(v);
            lemma_fresh_block(a, v, lines);
            lemma_lines_kept(a, v, lines);
            if r is Some {
                let n = large_at(a, block_taken(v).1->0);
                lemma_large_handed_out(a, v, n, w, lines, size);
            } else {
                lemma_none_taken(a, v, w, lines);
            }
        }
    } else if v.metas[a.block as int].first_free_line is Some {
        lemma_own_lines(a, v, lines);
        let (n, u, moved) = next_line(a, v, lines);
        lemma_handed_out(a, v, n, u, lines, size);
    } else {
        lemma_next_block(a, v, lines);
        let (n, u, moved) = next_block(a, v, lines);
        if moved {
            lemma_moved_on(a, v, n, u, lines);
            lemma_handed_out(a, v, n, u, lines, size);
        } else {
            lemma_none_taken(a, v, w, lines);
        }
    }
}

/// The allocator and its blocks after allocations of the first `n` sizes.
pub open spec fn after(
    a: Allocator,
    v: BlocksView,
    lines: Seq<FreeLineMeta>,
    sizes: Seq<int>,
    n: int,
) -> (Allocator, BlocksView)
    decreases n,
{
    if n <= 0 {
        (a, v)
    } else {
        let (b, w) = after(a, v, lines, sizes, n - 1);
        let (c, u, r) = allocated(b, w, lines, sizes[n - 1]);
        (c, u)
    }
}

/// What the allocation of size number `i` gives, after those before it.
pub open spec fn result_at(
    a: Allocator,
    v: BlocksView,
    lines: Seq<FreeLineMeta>,
    sizes: Seq<int>,
    i: int,
) -> Option<usize> {
    let (b, w) = after(a, v, lines, sizes, i);
    allocated(b, w, lines, sizes[i]).2
}

/// Allocations keep an allocator in order, and it never offers more than it did.
proof fn lemma_after(
    a: Allocator,
    v: BlocksView,
    lines: Seq<FreeLineMeta>,
    sizes: Seq<int>,
    m: int,
    n: int,
)
    requires
        in_order(a, v, lines),
        0 <= m <= n <= sizes.len(),
        forall|i: int| 0 <= i < sizes.len() ==> 0 < #[trigger] sizes[i] <= BLOCK_TOTAL_SIZE,
    ensures
        ({
            let (b, w) = after(a, v, lines, sizes, m);
            let (c, u) = after(a, v, lines, sizes, n);
            &&& in_order(b, w, lines)
            &&& in_order(c, u, lines)
            &&& forall|x: int| #[trigger] offered(c, u, lines, x) ==> offered(b, w, lines, x)
        }),
    decreases n,
{
    if n > 0 {
        let (c, u) = after(a, v, lines, sizes, n - 1);
        assert(0 < sizes[n - 1] <= BLOCK_TOTAL_SIZE);
        if m < n {
            lemma_after(a, v, lines, sizes, m, n - 1);
            lemma_allocated(c, u, lines, sizes[n - 1]);
            let (b, w) = after(a, v, lines, sizes, m);
            let (d, t) = after(a, v, lines, sizes, n);
            assert forall|x: int| #[trigger] offered(d, t, lines, x) implies offered(
                b,
                w,
                lines,
                x,
            ) by {
                assert(offered(c, u, lines, x));
            }
        } else {
            lemma_after(a, v, lines, sizes, n - 1, n - 1);
            lemma_allocated(c, u, lines, sizes[n - 1]);
        }
    }
}

/// No two objects that an allocator hands out share a byte, however many are allocated
/// before, between and after them.
pub proof fn lemma_objects_apart(
    a: Allocator,
    v: BlocksView,
    lines: Seq<FreeLineMeta>,
    sizes: Seq<int>,
    i: int,
    j: int,
)
    requires
        in_order(a, v, lines),
        0 <= i < j < sizes.len(),
        forall|k: int| 0 <= k < sizes.len() ==> 0 < #[trigger] sizes[k] <= BLOCK_TOTAL_SIZE,
        result_at(a, v, lines, sizes, i) is Some,
        result_at(a, v, lines, sizes, j) is Some,
    ensures
        ({
            let p = result_at(a, v, lines, sizes, i)->0;
            let q = result_at(a, v, lines, sizes, j)->0;
            p + sizes[i] <= q || q + sizes[j] <= p
        }),
{
    let p = result_at(a, v, lines, sizes, i)->0;
    let q = result_at(a, v, lines, sizes, j)->0;
    assert(sizes[i] > 0 && sizes[j] > 0);
    lemma_after(a, v, lines, sizes, i, i);
    lemma_after(a, v, lines, sizes, i + 1, j);
    let (b, w) = after(a, v, lines, sizes, i);
    let (c, u) = after(a, v, lines, sizes, i + 1);
    let (d, t) = after(a, v, lines, sizes, j);
    let (e, s, r) = allocated(d, t, lines, sizes[j]);
    lemma_allocated(b, w, lines, sizes[i]);
    lemma_allocated(d, t, lines, sizes[j]);
    if !(p + sizes[i] <= q || q + sizes[j] <= p) {
        let x = if p <= q {
            q as int
        } else {
            p as int
        };
        assert(!offered(c, u, lines, x));
        assert(!offered(e, s, lines, x));
        assert(offered(d, t, lines, x));
        assert(false);
    }
}

/// An allocator whose cursors have both been given a block is in order: neither block can be
/// taken again.
pub proof fn lemma_cursors_set(a: Allocator, v: BlocksView, lines: Seq<FreeLineMeta>)
    requires
        stock_ok(a, v, lines),
    ensures
        ({
            let (n, w, first) = next_block(a, v, lines);
            let (u, second) = block_taken(w);
            first && second is Some ==> {
                &&& in_order(large_at(n, second->0), u, lines)
                &&& forall|x: int| #[trigger]
                    offered(large_at(n, second->0), u, lines, x) ==> in_stock(
                        a.heap_start as int,
                        v,
                        lines,
                        x,
                    )
            }
        }),
{
    let (n, w, first) = next_block(a, v, lines);
    let (u, second) = block_taken(w);
    let h = a.heap_start as int;
    lemma_next_block(a, v, lines);
    if first && second is Some {
        let o = n.block as int;
        // Until it is set, the second cursor offers nothing.
        let m = Allocator { large_cursor: 0, large_limit: 0, ..n };
        assert(stock_ok(m, w, lines));
        assert(block_ok(m, w, lines));
        assert forall|x: int| #[trigger] offered_once(m, w, lines, x) by {
            if n.cursor <= x < n.limit {
                assert(!in_stock(h, w, lines, x));
                assert(!in_lines(h, w, lines, o, x));
            }
        }
        assert(in_order(m, w, lines));
        lemma_lines_kept(m, w, lines);
        assert(large_at(m, second->0) == large_at(n, second->0));
        assert forall|x: int| #[trigger]
            offered(large_at(n, second->0), u, lines, x) implies in_stock(h, v, lines, x) by {
            assert(offered(m, w, lines, x));
            if n.cursor <= x < n.limit {
                assert(!in_stock(h, w, lines, x));
            } else if in_stock(h, w, lines, x) {
            } else {
                assert(in_lines(h, w, lines, o, x));
            }
        }
    }
}

} // verus!
