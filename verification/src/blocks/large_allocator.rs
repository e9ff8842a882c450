//! Large objects: pieces of a block of at least 8192 bytes, or runs of blocks whose last
//! block may have room for such pieces.

use vstd::prelude::*;

use super::block_allocator::{
    apart_from_lists, blocks_freed, blocks_ok, free_block, lemma_apart_part, lemma_blocks_freed,
    lemma_freed_apart, lemma_freed_parts, lemma_metas_changed, lemma_run_taken, run_taken,
    BlockAllocator, BlockFlag, BlockMeta, BlocksView,
};
use super::constants::{BLOCK_TOTAL_SIZE, MIN_BLOCK_SIZE};
use crate::heap::free_list::apart;

verus! {

/// What is known of a place where an object can start.
#[derive(Clone, Copy, PartialEq, Eq, Debug, Structural)]
pub enum ObjectMeta {
    Free,
    Placeholder,
    Allocated,
    Marked,
}

/// The places where objects can start, one for every 16 bytes of the heap.
pub struct Bytemap {
    pub data: Vec<ObjectMeta>,
}

/// What a place is after a sweep: marked objects stay, others go.
pub open spec fn meta_swept(meta: ObjectMeta) -> ObjectMeta {
    if meta == ObjectMeta::Marked {
        ObjectMeta::Allocated
    } else {
        ObjectMeta::Free
    }
}

/// A free piece of a block.
#[derive(Clone, Copy, PartialEq, Eq, Debug, Structural)]
pub struct Chunk {
    /// The offset from the start of the heap.
    pub offset: usize,
    pub size: usize,
}

pub const FREE_LIST_COUNT: usize = 3;

/// A place for free pieces of one size. Only the piece that was added to an empty list is
/// found again.
#[derive(Clone, Copy, PartialEq, Eq, Debug, Structural)]
pub struct FreeList {
    pub first: Option<Chunk>,
    pub last: Option<Chunk>,
}

impl FreeList {
    pub fn new() -> (r: Self)
        ensures
            r.first is None,
            r.last is None,
    {
        FreeList { first: None, last: None }
    }

    /// The list after a piece has been added.
    pub open spec fn added(self, chunk: Chunk) -> FreeList {
        FreeList {
            first: if self.first is None {
                Some(chunk)
            } else {
                self.first
            },
            last: Some(chunk),
        }
    }

    /// The list after its first piece has been removed.
    pub open spec fn removed(self) -> FreeList {
        FreeList {
            first: None,
            last: if self.first == self.last {
                None
            } else {
                self.last
            },
        }
    }

    pub fn add_last(&mut self, chunk: Chunk)
        ensures
            *final(self) == old(self).added(chunk),
    {
        if self.first.is_none() {
            self.first = Some(chunk);
        }
        self.last = Some(chunk);
    }

    pub fn remove_first(&mut self) -> (r: Option<Chunk>)
        ensures
            r == old(self).first,
            old(self).first is None ==> *final(self) == *old(self),
            old(self).first is Some ==> *final(self) == old(self).removed(),
    {
        match self.first {
            None => None,
            Some(chunk) => {
                if self.first == self.last {
                    self.last = None;
                }
                self.first = None;
                Some(chunk)
            },
        }
    }
}

pub struct LargeAllocator {
    pub freelist: Vec<FreeList>,
}

/// What the contracts say of the large objects of a heap.
#[verifier::ext_equal]
pub struct LargeView {
    pub lists: Seq<FreeList>,
    pub places: Seq<ObjectMeta>,
    pub blocks: BlocksView,
}

/// Whether a number of bytes can be the size of a piece.
pub open spec fn piece_size(size: int) -> bool {
    MIN_BLOCK_SIZE <= size < BLOCK_TOTAL_SIZE && size % 8192 == 0
}

/// The view after a free piece has been noted.
pub open spec fn piece_added(v: LargeView, offset: int, size: int) -> LargeView {
    let i = size / 8192 - 1;
    LargeView {
        lists: v.lists.update(
            i,
            v.lists[i].added(Chunk { offset: offset as usize, size: size as usize }),
        ),
        places: v.places.update(offset / 16, ObjectMeta::Placeholder),
        ..v
    }
}

/// The first list from `i` on that has a piece.
pub open spec fn list_with_piece(lists: Seq<FreeList>, i: int) -> int
    decreases lists.len() - i,
{
    if i >= lists.len() || lists[i].first is Some {
        i
    } else {
        list_with_piece(lists, i + 1)
    }
}

/// `size` rounded up to a multiple of 8192.
pub open spec fn piece_rounded(size: int) -> int {
    (size + 8191) / 8192 * 8192
}

/// The view after a piece of at least `size` bytes has been found, and the piece: a free
/// piece, else a run of blocks.
pub open spec fn piece_found(v: LargeView, size: int) -> (LargeView, Option<Chunk>) {
    let i = list_with_piece(v.lists, size / 8192 - 1);
    if size < BLOCK_TOTAL_SIZE && i < v.lists.len() {
        (LargeView { lists: v.lists.update(i, v.lists[i].removed()), ..v }, v.lists[i].first)
    } else {
        let n = (size + 32767) / 32768;
        let (blocks, r) = run_taken(v.blocks, n);
        (
            LargeView { blocks, ..v },
            match r {
                Some(b) => Some(
                    Chunk { offset: (b * 32768) as usize, size: (n * 32768) as usize },
                ),
                None => None,
            },
        )
    }
}

/// The view after `size` bytes have been allocated, and where. What is left of the piece
/// becomes a piece of its own.
pub open spec fn large_allocated(v: LargeView, size: int) -> (LargeView, Option<int>) {
    let (w, r) = piece_found(v, size);
    match r {
        None => (w, None),
        Some(chunk) => {
            let u = if chunk.size - 8192 >= size {
                piece_added(w, chunk.offset + size, chunk.size - size)
            } else {
                w
            };
            (
                LargeView {
                    places: u.places.update(chunk.offset as int / 16, ObjectMeta::Allocated),
                    ..u
                },
                Some(chunk.offset as int),
            )
        },
    }
}

/// Whether the free pieces lie in the heap and have the sizes of their lists.
pub open spec fn pieces_ok(lists: Seq<FreeList>, places: Seq<ObjectMeta>) -> bool {
    &&& lists.len() == FREE_LIST_COUNT
    &&& forall|i: int|
        0 <= i < FREE_LIST_COUNT ==> ((#[trigger] lists[i]).first matches Some(c) ==> {
            &&& c.size == 8192 * (i + 1)
            &&& c.offset % 16 == 0
            &&& c.offset + c.size <= 16 * places.len()
        })
}

impl LargeAllocator {
    pub open spec fn view(&self, bytemap: &Bytemap, blocks: BlocksView) -> LargeView {
        LargeView { lists: self.freelist@, places: bytemap.data@, blocks }
    }

    /// The list for pieces of `size` bytes.
    pub fn size_to_linked_list_index(size: usize) -> (r: usize)
        requires
            size >= MIN_BLOCK_SIZE,
        ensures
            r == size / 8192 - 1,
    {
        size / MIN_BLOCK_SIZE - 1
    }

    pub fn new() -> (r: Self)
        ensures
            r.freelist@.len() == FREE_LIST_COUNT,
            forall|i: int|
                0 <= i < FREE_LIST_COUNT ==> (#[trigger] r.freelist@[i]).first is None
                    && r.freelist@[i].last is None,
    {
        let mut freelist: Vec<FreeList> = Vec::new();
        freelist.push(FreeList::new());
        freelist.push(FreeList::new());
        freelist.push(FreeList::new());
        LargeAllocator { freelist }
    }

    /// Forgets all free pieces.
    pub fn clear(&mut self)
        requires
            old(self).freelist@.len() == FREE_LIST_COUNT,
        ensures
            final(self).freelist@.len() == FREE_LIST_COUNT,
            forall|i: int|
                0 <= i < FREE_LIST_COUNT ==> (#[trigger] final(self).freelist@[i]).first is None
                    && final(self).freelist@[i].last is None,
    {
        self.freelist.set(0, FreeList::new());
        self.freelist.set(1, FreeList::new());
        self.freelist.set(2, FreeList::new());
    }

    /// Notes a free piece.
    pub fn add_chunk(&mut self, bytemap: &mut Bytemap, offset: usize, total_block_size: usize)
        requires
            piece_size(total_block_size as int),
            old(self).freelist@.len() == FREE_LIST_COUNT,
            offset / 16 < old(bytemap).data@.len(),
        ensures
            forall|blocks: BlocksView|
                final(self).view(final(bytemap), blocks) == piece_added(
                    #[trigger] old(self).view(old(bytemap), blocks),
                    offset as int,
                    total_block_size as int,
                ),
    {
        let list_index: usize = Self::size_to_linked_list_index(total_block_size);
        bytemap.data.set(offset / 16, ObjectMeta::Placeholder);
        let ghost before = *self;
        self.freelist[list_index].add_last(Chunk { offset, size: total_block_size });
        assert(self.freelist@ =~= before.freelist@.update(
            list_index as int,
            before.freelist@[list_index as int].added(Chunk { offset, size: total_block_size }),
        ));
    }

    /// Takes the first free piece of at least the given size.
    fn get_chunk_for_size(&mut self, required_chunk_size: usize) -> (r: Option<Chunk>)
        requires
            old(self).freelist@.len() == FREE_LIST_COUNT,
            required_chunk_size >= MIN_BLOCK_SIZE,
        ensures
            ({
                let lists = old(self).freelist@;
                let i = list_with_piece(lists, required_chunk_size / 8192 - 1);
                &&& i >= lists.len() ==> r is None && *final(self) == *old(self)
                &&& 0 <= i < lists.len() ==> r == lists[i].first && final(self).freelist@
                    == lists.update(i, lists[i].removed())
            }),
            final(self).freelist@.len() == FREE_LIST_COUNT,
    {
        let ghost lists = self.freelist@;
        let first: usize = Self::size_to_linked_list_index(required_chunk_size);
        let mut i: usize = first;
        while i < FREE_LIST_COUNT
            invariant
                self.freelist@ == lists,
                *self == *old(self),
                lists.len() == FREE_LIST_COUNT,
                list_with_piece(lists, first as int) == list_with_piece(lists, i as int),
                first == required_chunk_size / 8192 - 1,
                lists == old(self).freelist@,
            decreases FREE_LIST_COUNT - i,
        {
            if self.freelist[i].first.is_some() {
                let chunk: Option<Chunk> = self.freelist[i].remove_first();
                assert(self.freelist@ =~= lists.update(i as int, lists[i as int].removed()));
                return chunk;
            }
            i = i + 1;
        }
        None
    }

    /// Takes a piece of at least `actual` bytes: a free piece, else a run of blocks.
    #[verifier::spinoff_prover]
    #[verifier::rlimit(100)]
    fn find_piece(
        &mut self,
        bytemap: &Bytemap,
        block_allocator: &mut BlockAllocator,
        metas: &mut Vec<BlockMeta>,
        actual: usize,
    ) -> (r: Option<Chunk>)
        requires
            8192 <= actual,
            actual + 32767 <= usize::MAX,
            actual % 8192 == 0,
            pieces_ok(old(self).freelist@, bytemap.data@),
            blocks_ok(old(block_allocator).view(old(metas)@)),
            bytemap.data@.len() == 2048 * old(metas)@.len(),
            old(metas)@.len() * 32768 <= usize::MAX,
        ensures
            pieces_ok(final(self).freelist@, bytemap.data@),
            blocks_ok(final(block_allocator).view(final(metas)@)),
            final(metas)@.len() == old(metas)@.len(),
            (
                final(self).view(bytemap, final(block_allocator).view(final(metas)@)),
                r,
            ) == piece_found(
                old(self).view(bytemap, old(block_allocator).view(old(metas)@)),
                actual as int,
            ),
            r matches Some(c) ==> {
                &&& c.offset % 16 == 0
                &&& c.offset + c.size <= 16 * bytemap.data@.len()
                &&& actual <= c.size
                &&& c.size % 8192 == 0
                &&& c.size - actual < 32768
            },
    {
        let ghost v = self.view(bytemap, block_allocator.view(metas@));
        let ghost lists = self.freelist@;
        let ghost at = list_with_piece(lists, actual as int / 8192 - 1);
        proof {
            lemma_list_with_piece(lists, actual as int / 8192 - 1);
        }
        if actual < BLOCK_TOTAL_SIZE {
            let chunk: Option<Chunk> = self.get_chunk_for_size(actual);
            if chunk.is_some() {
                proof {
                    assert(pieces_ok(self.freelist@, bytemap.data@)) by {
                        assert forall|i: int| 0 <= i < FREE_LIST_COUNT implies ((
                        #[trigger] self.freelist@[i]).first matches Some(c) ==> {
                            &&& c.size == 8192 * (i + 1)
                            &&& c.offset % 16 == 0
                            &&& c.offset + c.size <= 16 * bytemap.data@.len()
                        }) by {
                            assert(lists[i].first matches Some(c) ==> c.size == 8192 * (i + 1));
                        }
                    }
                    assert(lists[at].first->0.size == 8192 * (at + 1));
                }
                return chunk;
            }
        }
        let humongous_size: usize = (actual + 32767) / 32768;
        match block_allocator.get_free_humongous_block(metas, humongous_size) {
            Some(b) => Some(Chunk { offset: b * 32768, size: humongous_size * 32768 }),
            None => None,
        }
    }

    /// Allocates at least `requested_block_size` bytes. The result is the offset from the
    /// start of the heap; the rounded number of bytes from there on is to be cleared.
    pub fn get_block(
        &mut self,
        bytemap: &mut Bytemap,
        block_allocator: &mut BlockAllocator,
        metas: &mut Vec<BlockMeta>,
        requested_block_size: usize,
    ) -> (r: Option<usize>)
        requires
            0 < requested_block_size,
            requested_block_size + 8191 + 32767 <= usize::MAX,
            pieces_ok(old(self).freelist@, old(bytemap).data@),
            blocks_ok(old(block_allocator).view(old(metas)@)),
            old(bytemap).data@.len() == 2048 * old(metas)@.len(),
            old(metas)@.len() * 32768 <= usize::MAX,
        ensures
            pieces_ok(final(self).freelist@, final(bytemap).data@),
            blocks_ok(final(block_allocator).view(final(metas)@)),
            final(bytemap).data@.len() == old(bytemap).data@.len(),
            final(metas)@.len() == old(metas)@.len(),
            ({
                let v = old(self).view(old(bytemap), old(block_allocator).view(old(metas)@));
                let (w, at) = large_allocated(v, piece_rounded(requested_block_size as int));
                &&& final(self).view(
                    final(bytemap),
                    final(block_allocator).view(final(metas)@),
                ) == w
                &&& match at {
                    Some(o) => r == Some(o as usize),
                    None => r is None,
                }
            }),
    {
        let actual: usize = (requested_block_size + 8191) / 8192 * 8192;
        let chunk: Option<Chunk> = self.find_piece(bytemap, block_allocator, metas, actual);
        let ghost blocks = block_allocator.view(metas@);
        let ghost w = self.view(bytemap, blocks);
        match chunk {
            None => None,
            Some(c) => {
                if c.size - MIN_BLOCK_SIZE >= actual {
                    let ghost pieces = self.freelist@;
                    let ghost total = bytemap.data@.len();
                    self.add_chunk(bytemap, c.offset + actual, c.size - actual);
                    proof {
                        assert(self.view(bytemap, blocks) == piece_added(
                            w,
                            c.offset + actual,
                            c.size - actual,
                        ));
                        assert(bytemap.data@.len() == total);
                        assert(pieces_ok(self.freelist@, bytemap.data@)) by {
                            assert forall|i: int| 0 <= i < FREE_LIST_COUNT implies ((
                            #[trigger] self.freelist@[i]).first matches Some(d) ==> {
                                &&& d.size == 8192 * (i + 1)
                                &&& d.offset % 16 == 0
                                &&& d.offset + d.size <= 16 * bytemap.data@.len()
                            }) by {
                                assert(pieces[i].first matches Some(d) ==> d.size == 8192 * (i + 1));
                            }
                        }
                    }
                }
                bytemap.data.set(c.offset / 16, ObjectMeta::Allocated);
                Some(c.offset)
            },
        }
    }
}

proof fn lemma_list_with_piece(lists: Seq<FreeList>, i: int)
    ensures
        list_with_piece(lists, i) >= i,
        i <= list_with_piece(lists, i) < lists.len() ==> lists[list_with_piece(lists, i)].first is Some,
    decreases lists.len() - i,
{
    if i < lists.len() && !(lists[i].first is Some) {
        lemma_list_with_piece(lists, i + 1);
    }
}

/// The view, and the start of the free piece that is open, after the place at `at` has been
/// looked at: a marked object closes a free piece, another object opens one.
pub open spec fn place_swept(v: LargeView, open: Option<int>, at: int) -> (LargeView, Option<int>) {
    let meta = v.places[at / 16];
    let (w, next) = match open {
        None => (
            v,
            if meta == ObjectMeta::Allocated || meta == ObjectMeta::Placeholder {
                Some(at)
            } else {
                None
            },
        ),
        Some(from) => if meta == ObjectMeta::Marked {
            (piece_added(v, from, at - from), None)
        } else {
            (v, Some(from))
        },
    };
    (LargeView { places: w.places.update(at / 16, meta_swept(meta)), ..w }, next)
}

/// The same for the first `k` places of a block behind its start.
pub open spec fn places_swept(
    v: LargeView,
    open: Option<int>,
    start: int,
    k: int,
) -> (LargeView, Option<int>)
    decreases k,
{
    if k <= 0 {
        (v, open)
    } else {
        let (w, o) = places_swept(v, open, start, k - 1);
        place_swept(w, o, start + 8192 * k)
    }
}

/// The view after the blocks in front of the last one of a dead run have become free.
pub open spec fn front_freed(v: LargeView, b: int, n: int) -> LargeView {
    let blocks = blocks_freed(v.blocks, b, n - 1);
    LargeView {
        blocks: BlocksView {
            metas: blocks.metas.update(
                b + n - 1,
                BlockMeta {
                    flag: BlockFlag::HumongousStart,
                    humongous_size: 1,
                    ..blocks.metas[b + n - 1]
                },
            ),
            ..blocks
        },
        ..v
    }
}

/// The view after the run that starts at block `b` has been swept. An object that takes
/// more than a block starts at the first block; smaller ones lie in the last block.
pub open spec fn large_swept(v: LargeView, b: int) -> LargeView {
    let n = v.blocks.metas[b].humongous_size as int;
    let start = b * 32768;
    let last = (b + n - 1) * 32768;
    let marked = v.places[start / 16] == ObjectMeta::Marked;
    let v1 = if n > 1 && !marked {
        front_freed(v, b, n)
    } else {
        v
    };
    let v2 = LargeView {
        places: v1.places.update(start / 16, meta_swept(v1.places[start / 16])),
        ..v1
    };
    let (w, open) = places_swept(
        v2,
        if marked {
            None
        } else {
            Some(last)
        },
        last,
        3,
    );
    match open {
        None => w,
        Some(from) => if from == last {
            LargeView { blocks: blocks_freed(w.blocks, b + n - 1, 1), ..w }
        } else {
            piece_added(w, from, last + 32768 - from)
        },
    }
}

/// Whether the run that starts at block `b` can be swept: its blocks are in no list.
pub open spec fn can_sweep(v: BlocksView, b: int) -> bool {
    let n = v.metas[b].humongous_size as int;
    &&& blocks_ok(v)
    &&& 0 <= b
    &&& 1 <= n
    &&& b + n <= v.metas.len()
    &&& v.free + 2 <= u32::MAX
    &&& apart_from_lists(v.lists, b, n)
    &&& v.smallest.0 < v.smallest.1 ==> apart(b, n, v.smallest.0, v.smallest.1 - v.smallest.0)
    &&& v.coalescing matches Some((f, t)) ==> apart(f, t - f, b, n)
}

impl LargeAllocator {
    /// Looks at the place at `at`.
    fn sweep_place(&mut self, bytemap: &mut Bytemap, open: Option<usize>, at: usize) -> (r: Option<
        usize,
    >)
        requires
            pieces_ok(old(self).freelist@, old(bytemap).data@),
            at + 8192 <= 16 * old(bytemap).data@.len(),
            at % 8192 == 0,
            open matches Some(from) ==> from < at && at - from < 32768 && from % 8192 == 0,
        ensures
            pieces_ok(final(self).freelist@, final(bytemap).data@),
            final(bytemap).data@.len() == old(bytemap).data@.len(),
            r matches Some(from) ==> from == at || open == Some(from),
            forall|blocks: BlocksView|
                ({
                    let (w, o) = place_swept(
                        #[trigger] old(self).view(old(bytemap), blocks),
                        open_int(open),
                        at as int,
                    );
                    &&& final(self).view(final(bytemap), blocks) == w
                    &&& o == open_int(r)
                }),
    {
        let meta: ObjectMeta = bytemap.data[at / 16];
        let mut next: Option<usize> = open;
        let ghost pieces = self.freelist@;
        let ghost total = bytemap.data@.len();
        let ghost before = *self;
        let ghost before_map = *bytemap;
        match open {
            None => {
                if meta == ObjectMeta::Allocated || meta == ObjectMeta::Placeholder {
                    next = Some(at);
                }
            },
            Some(from) => {
                if meta == ObjectMeta::Marked {
                    self.add_chunk(bytemap, from, at - from);
                    next = None;
                    proof {
                        let any = empty_blocks();
                        assert(self.view(bytemap, any) == piece_added(
                            before.view(&before_map, any),
                            from as int,
                            at - from,
                        ));
                        assert(bytemap.data@.len() == total);
                        assert forall|i: int| 0 <= i < FREE_LIST_COUNT implies ((
                        #[trigger] self.freelist@[i]).first matches Some(d) ==> {
                            &&& d.size == 8192 * (i + 1)
                            &&& d.offset % 16 == 0
                            &&& d.offset + d.size <= 16 * bytemap.data@.len()
                        }) by {
                            assert(pieces[i].first matches Some(d) ==> d.size == 8192 * (i + 1));
                        }
                    }
                }
            },
        }
        let swept: ObjectMeta = if meta == ObjectMeta::Marked {
            ObjectMeta::Allocated
        } else {
            ObjectMeta::Free
        };
        let ghost mid = *bytemap;
        bytemap.data.set(at / 16, swept);
        proof {
            assert forall|blocks: BlocksView|
                ({
                    let (w, o) = place_swept(
                        #[trigger] before.view(&before_map, blocks),
                        open_int(open),
                        at as int,
                    );
                    &&& self.view(bytemap, blocks) == w
                    &&& o == open_int(next)
                }) by {
                let v = before.view(&before_map, blocks);
                assert(self.view(&mid, blocks) == if open is Some && meta == ObjectMeta::Marked {
                    piece_added(v, open->0 as int, at - open->0)
                } else {
                    v
                });
            }
        }
        next
    }
}

impl LargeAllocator {
    /// Makes the blocks in front of the last one of a dead run free.
    fn free_front(
        block_allocator: &mut BlockAllocator,
        metas: &mut Vec<BlockMeta>,
        block: usize,
        n: usize,
    )
        requires
            can_sweep(old(block_allocator).view(old(metas)@), block as int),
            n == old(metas)@[block as int].humongous_size,
            n > 1,
        ensures
            final(metas)@.len() == old(metas)@.len(),
            ({
                let v = old(block_allocator).view(old(metas)@);
                let freed = blocks_freed(v, block as int, n - 1);
                let w = final(block_allocator).view(final(metas)@);
                &&& w == (BlocksView {
                    metas: freed.metas.update(
                        block + n - 1,
                        BlockMeta {
                            flag: BlockFlag::HumongousStart,
                            humongous_size: 1,
                            ..freed.metas[block + n - 1]
                        },
                    ),
                    ..freed
                })
                &&& blocks_ok(w)
                &&& apart_from_lists(w.lists, block + n - 1, 1)
                &&& w.free == v.free + 1
                &&& w.smallest == v.smallest
                &&& w.coalescing matches Some((f, t)) && t == block + n - 1
            }),
    {
        let ghost v = block_allocator.view(metas@);
        let ghost b = block as int;
        proof {
            lemma_apart_part(v.lists, b, n as int, b, n - 1);
            lemma_apart_part(v.lists, b, n as int, b + n - 1, 1);
            lemma_freed_apart(v, b, n - 1, b + n - 1, 1);
        }
        block_allocator.add_free_blocks(metas, block, n - 1);
        let ghost w = block_allocator.view(metas@);
        let last: usize = block + n - 1;
        let meta: BlockMeta = metas[last];
        metas.set(
            last,
            BlockMeta {
                flag: BlockFlag::HumongousStart,
                humongous_size: 1,
                first_free_line: meta.first_free_line,
            },
        );
        proof {
            lemma_metas_changed(w.lists, w.metas, metas@, last as int, 1);
            lemma_freed_parts(v, b, n - 1);
        }
    }

    /// Looks at the places of the last block of a run behind its start.
    #[verifier::spinoff_prover]
    #[verifier::rlimit(100)]
    fn sweep_last(&mut self, bytemap: &mut Bytemap, first_open: Option<usize>, last_start: usize)
        -> (r: Option<usize>)
        requires
            pieces_ok(old(self).freelist@, old(bytemap).data@),
            last_start + 32768 <= 16 * old(bytemap).data@.len(),
            last_start + 32768 <= usize::MAX,
            last_start % 32768 == 0,
            first_open matches Some(from) ==> from == last_start,
        ensures
            pieces_ok(final(self).freelist@, final(bytemap).data@),
            final(bytemap).data@.len() == old(bytemap).data@.len(),
            r matches Some(from) ==> last_start <= from < last_start + 32768 && from % 8192 == 0,
            forall|blocks: BlocksView|
                (final(self).view(final(bytemap), blocks), open_int(r)) == places_swept(
                    #[trigger] old(self).view(old(bytemap), blocks),
                    open_int(first_open),
                    last_start as int,
                    3,
                ),
    {
        let ghost before = *self;
        let ghost before_map = *bytemap;
        let mut open: Option<usize> = first_open;
        let mut k: usize = 0;
        while k < 3
            invariant
                k <= 3,
                pieces_ok(self.freelist@, bytemap.data@),
                bytemap.data@.len() == before_map.data@.len(),
                last_start + 32768 <= 16 * bytemap.data@.len(),
                last_start + 32768 <= usize::MAX,
                last_start % 32768 == 0,
                open matches Some(from) ==> last_start <= from <= last_start + 8192 * k && from
                    % 8192 == 0,
                forall|blocks: BlocksView|
                    (self.view(bytemap, blocks), open_int(open)) == places_swept(
                        #[trigger] before.view(&before_map, blocks),
                        open_int(first_open),
                        last_start as int,
                        k as int,
                    ),
            decreases 3 - k,
        {
            let at: usize = last_start + 8192 * (k + 1);
            let ghost prev = *self;
            let ghost prev_map = *bytemap;
            open = self.sweep_place(bytemap, open, at);
            k = k + 1;
            proof {
                assert forall|blocks: BlocksView|
                    (self.view(bytemap, blocks), open_int(open)) == places_swept(
                        #[trigger] before.view(&before_map, blocks),
                        open_int(first_open),
                        last_start as int,
                        k as int,
                    ) by {
                    let w = prev.view(&prev_map, blocks);
                    assert(before.view(&before_map, blocks) == before.view(&before_map, blocks));
                }
            }
        }
        open
    }

    /// Notes the piece from `from` to the end of a block.
    fn close_piece(&mut self, bytemap: &mut Bytemap, from: usize, size: usize)
        requires
            pieces_ok(old(self).freelist@, old(bytemap).data@),
            piece_size(size as int),
            from % 16 == 0,
            from + size <= 16 * old(bytemap).data@.len(),
        ensures
            pieces_ok(final(self).freelist@, final(bytemap).data@),
            final(bytemap).data@.len() == old(bytemap).data@.len(),
            forall|blocks: BlocksView|
                final(self).view(final(bytemap), blocks) == piece_added(
                    #[trigger] old(self).view(old(bytemap), blocks),
                    from as int,
                    size as int,
                ),
    {
        let ghost pieces = self.freelist@;
        let ghost before = *self;
        let ghost before_map = *bytemap;
        self.add_chunk(bytemap, from, size);
        proof {
            let any = empty_blocks();
            assert(self.view(bytemap, any) == piece_added(
                before.view(&before_map, any),
                from as int,
                size as int,
            ));
            assert forall|i: int| 0 <= i < FREE_LIST_COUNT implies ((
            #[trigger] self.freelist@[i]).first matches Some(d) ==> {
                &&& d.size == 8192 * (i + 1)
                &&& d.offset % 16 == 0
                &&& d.offset + d.size <= 16 * bytemap.data@.len()
            }) by {
                assert(pieces[i].first matches Some(d) ==> d.size == 8192 * (i + 1));
            }
        }
    }

    /// Sweeps the run that starts at block `block`.
    #[verifier::spinoff_prover]
    #[verifier::rlimit(100)]
    pub fn sweep(
        &mut self,
        bytemap: &mut Bytemap,
        block_allocator: &mut BlockAllocator,
        metas: &mut Vec<BlockMeta>,
        block: usize,
    )
        requires
            pieces_ok(old(self).freelist@, old(bytemap).data@),
            can_sweep(old(block_allocator).view(old(metas)@), block as int),
            old(bytemap).data@.len() == 2048 * old(metas)@.len(),
            old(metas)@.len() * 32768 <= usize::MAX,
        ensures
            pieces_ok(final(self).freelist@, final(bytemap).data@),
            blocks_ok(final(block_allocator).view(final(metas)@)),
            final(bytemap).data@.len() == old(bytemap).data@.len(),
            final(metas)@.len() == old(metas)@.len(),
            final(self).view(final(bytemap), final(block_allocator).view(final(metas)@))
                == large_swept(
                old(self).view(old(bytemap), old(block_allocator).view(old(metas)@)),
                block as int,
            ),
    {
        let ghost v = self.view(bytemap, block_allocator.view(metas@));
        let n: usize = metas[block].humongous_size as usize;
        let start: usize = block * 32768;
        let last_block: usize = block + n - 1;
        let last_start: usize = last_block * 32768;
        let first: ObjectMeta = bytemap.data[start / 16];
        let marked: bool = first == ObjectMeta::Marked;
        if n > 1 && !marked {
            Self::free_front(block_allocator, metas, block, n);
        } else {
            proof {
                lemma_apart_part(v.blocks.lists, block as int, n as int, block + n - 1, 1);
            }
        }
        let ghost blocks1 = block_allocator.view(metas@);
        assert(can_free_last(blocks1, last_block as int));
        let swept: ObjectMeta = if marked {
            ObjectMeta::Allocated
        } else {
            ObjectMeta::Free
        };
        bytemap.data.set(start / 16, swept);
        let ghost v2 = self.view(bytemap, blocks1);
        let first_open: Option<usize> = if marked {
            None
        } else {
            Some(last_start)
        };
        let open: Option<usize> = self.sweep_last(bytemap, first_open, last_start);
        let ghost w = self.view(bytemap, blocks1);
        proof {
            assert((w, open_int(open)) == places_swept(
                v2,
                open_int(first_open),
                last_start as int,
                3,
            ));
        }
        match open {
            None => {},
            Some(from) => {
                if from == last_start {
                    block_allocator.add_free_blocks(metas, last_block, 1);
                } else {
                    self.close_piece(bytemap, from, last_start + 32768 - from);
                }
            },
        }
    }
}

/// The start of a free piece as a number.
pub open spec fn open_int(open: Option<usize>) -> Option<int> {
    match open {
        Some(from) => Some(from as int),
        None => None,
    }
}

/// A view without blocks.
pub open spec fn empty_blocks() -> BlocksView {
    BlocksView {
        recycled: Seq::empty(),
        recycled_count: 0,
        smallest: (0, 0),
        min: 0,
        top: 0,
        free: 0,
        coalescing: None,
        lists: Seq::empty(),
        metas: Seq::empty(),
    }
}

/// Whether a single block can become free.
spec fn can_free_last(v: BlocksView, b: int) -> bool {
    &&& blocks_ok(v)
    &&& 0 <= b < v.metas.len()
    &&& v.free < u32::MAX
    &&& apart_from_lists(v.lists, b, 1)
    &&& v.smallest.0 < v.smallest.1 ==> apart(b, 1, v.smallest.0, v.smallest.1 - v.smallest.0)
    &&& v.coalescing matches Some((f, t)) ==> apart(f, t - f, b, 1)
}

/// Looking at places touches only the pieces and the places. A piece that was not open
/// before does not start at the start of the block.
pub proof fn lemma_places_swept_blocks(v: LargeView, open: Option<int>, start: int, k: int)
    ensures
        places_swept(v, open, start, k).0.blocks == v.blocks,
        open is None ==> places_swept(v, open, start, k).1 != Some(start),
    decreases k,
{
    if k > 0 {
        lemma_places_swept_blocks(v, open, start, k - 1);
    }
}

/// Sweeping a run leaves the blocks behind it alone.
pub proof fn lemma_large_swept(v: LargeView, b: int)
    requires
        can_sweep(v.blocks, b),
        ({
            let c = b + v.blocks.metas[b].humongous_size;
            &&& apart_from_lists(v.blocks.lists, c, v.blocks.metas.len() - c)
            &&& v.blocks.coalescing matches Some((f, t)) ==> t <= b
        }),
    ensures
        ({
            let c = b + v.blocks.metas[b].humongous_size;
            let w = large_swept(v, b).blocks;
            &&& apart_from_lists(w.lists, c, w.metas.len() - c)
            &&& w.metas.len() == v.blocks.metas.len()
            &&& w.coalescing matches Some((f, t)) ==> t <= c
            &&& w.smallest == v.blocks.smallest
            &&& w.recycled == v.blocks.recycled
            &&& w.recycled_count == v.blocks.recycled_count
            &&& v.blocks.free <= w.free <= v.blocks.free + 2
            &&& forall|j: int| c <= j < w.metas.len() ==> (#[trigger] w.metas[j])
                == v.blocks.metas[j]
        }),
{
    let n = v.blocks.metas[b].humongous_size as int;
    let c = b + n;
    let m = v.blocks.metas.len() - c;
    let last = (b + n - 1) * 32768;
    let marked = v.places[b * 32768 / 16] == ObjectMeta::Marked;
    let v1 = if n > 1 && !marked {
        front_freed(v, b, n)
    } else {
        v
    };
    if n > 1 && !marked {
        lemma_freed_parts(v.blocks, b, n - 1);
        lemma_freed_apart(v.blocks, b, n - 1, c, m);
    }
    let v2 = LargeView {
        places: v1.places.update(
            b * 32768 / 16,
            meta_swept(v1.places[b * 32768 / 16]),
        ),
        ..v1
    };
    let first: Option<int> = if marked {
        None
    } else {
        Some(last)
    };
    lemma_places_swept_blocks(v2, first, last, 3);
    let (w, open) = places_swept(v2, first, last, 3);
    if let Some(from) = open {
        if from == last {
            lemma_last_freed(v, v1, b, n);
        }
    }
}

/// Freeing the last block of a run leaves the blocks behind it alone.
proof fn lemma_last_freed(v: LargeView, v1: LargeView, b: int, n: int)
    requires
        can_sweep(v.blocks, b),
        n == v.blocks.metas[b].humongous_size,
        v1 == v || (n > 1 && v1 == front_freed(v, b, n)),
        apart_from_lists(v.blocks.lists, b + n, v.blocks.metas.len() - (b + n)),
        v.blocks.coalescing matches Some((f, t)) ==> t <= b,
    ensures
        ({
            let c = b + n;
            let w = blocks_freed(v1.blocks, b + n - 1, 1);
            &&& apart_from_lists(w.lists, c, w.metas.len() - c)
            &&& w.metas.len() == v.blocks.metas.len()
            &&& w.coalescing matches Some((f, t)) && t <= c
            &&& w.smallest == v.blocks.smallest
            &&& w.recycled == v.blocks.recycled
            &&& w.recycled_count == v.blocks.recycled_count
            &&& v.blocks.free <= w.free <= v.blocks.free + 2
            &&& forall|j: int| c <= j < w.metas.len() ==> (#[trigger] w.metas[j])
                == v.blocks.metas[j]
        }),
{
    let c = b + n;
    let m = v.blocks.metas.len() - c;
    if v1 == v {
        lemma_freed_parts(v.blocks, b + n - 1, 1);
        lemma_freed_apart(v.blocks, b + n - 1, 1, c, m);
    } else {
        lemma_freed_parts(v.blocks, b, n - 1);
        lemma_freed_apart(v.blocks, b, n - 1, c, m);
        assert((v1.blocks.coalescing->0).1 == b + n - 1);
    }
}

/// Whether the byte at `x` lies in a free piece that can be found.
pub open spec fn in_pieces(lists: Seq<FreeList>, x: int) -> bool {
    exists|i: int|
        0 <= i < lists.len() && ((#[trigger] lists[i]).first matches Some(c) && c.offset <= x
            < c.offset + c.size)
}

/// Whether the byte at `x` can be handed out: it lies in a free piece or a free block.
pub open spec fn in_reserve(v: LargeView, x: int) -> bool {
    in_pieces(v.lists, x) || free_block(v.blocks, x / 32768)
}

/// Whether the piece of list `i` shares no byte with those of other lists or with a free
/// block.
pub open spec fn piece_apart(v: LargeView, i: int) -> bool {
    v.lists[i].first matches Some(c) ==> {
        &&& forall|x: int|
            c.offset <= x < c.offset + c.size ==> !#[trigger] free_block(v.blocks, x / 32768)
        &&& forall|j: int|
            0 <= j < v.lists.len() && j != i ==> ((#[trigger] v.lists[j]).first matches Some(d)
                ==> apart(c.offset as int, c.size as int, d.offset as int, d.size as int))
    }
}

/// Whether no two free pieces share a byte, and none shares one with a free block.
pub open spec fn pieces_apart(v: LargeView) -> bool {
    forall|i: int| 0 <= i < v.lists.len() ==> #[trigger] piece_apart(v, i)
}

/// The size of a piece is the least multiple of 8192 that has room for the request.
pub proof fn lemma_piece_rounded(size: int)
    requires
        0 < size,
    ensures
        size <= piece_rounded(size) < size + 8192,
        piece_rounded(size) % 8192 == 0,
        forall|m: int| m % 8192 == 0 && size <= m ==> piece_rounded(size) <= #[trigger] (m + 0),
{
}

/// A piece that is taken out of its list is not in the reserve any more.
proof fn lemma_piece_out(v: LargeView, i: int)
    requires
        pieces_apart(v),
        0 <= i < v.lists.len(),
        v.lists[i].first is Some,
    ensures
        ({
            let c = v.lists[i].first->0;
            let w = LargeView { lists: v.lists.update(i, v.lists[i].removed()), ..v };
            &&& pieces_apart(w)
            &&& forall|x: int| #[trigger] in_reserve(w, x) ==> in_reserve(v, x)
            &&& forall|x: int| c.offset <= x < c.offset + c.size ==> #[trigger] in_reserve(v, x)
            &&& forall|x: int| c.offset <= x < c.offset + c.size ==> !#[trigger] in_reserve(w, x)
        }),
{
    let c = v.lists[i].first->0;
    let w = LargeView { lists: v.lists.update(i, v.lists[i].removed()), ..v };
    assert(piece_apart(v, i));
    assert forall|j: int| 0 <= j < w.lists.len() implies #[trigger] piece_apart(w, j) by {
        assert(piece_apart(v, j));
        if j != i && w.lists[j].first is Some {
            let d = w.lists[j].first->0;
            assert forall|x: int| d.offset <= x < d.offset + d.size implies !#[trigger] free_block(
                w.blocks,
                x / 32768,
            ) by {
                assert(!free_block(v.blocks, x / 32768));
            }
            assert forall|k: int| 0 <= k < w.lists.len() && k != j implies ((
            #[trigger] w.lists[k]).first matches Some(e) ==> apart(
                d.offset as int,
                d.size as int,
                e.offset as int,
                e.size as int,
            )) by {
                assert(v.lists[k].first == w.lists[k].first || k == i);
            }
        }
    }
    assert forall|x: int| #[trigger] in_reserve(w, x) implies in_reserve(v, x) by {
        if in_pieces(w.lists, x) {
            let j = choose|j: int|
                0 <= j < w.lists.len() && ((#[trigger] w.lists[j]).first matches Some(d)
                    && d.offset <= x < d.offset + d.size);
            assert(v.lists[j].first == w.lists[j].first);
        }
    }
    assert forall|x: int| c.offset <= x < c.offset + c.size implies #[trigger] in_reserve(v, x) by {
        assert(v.lists[i].first == Some(c));
    }
    assert forall|x: int| c.offset <= x < c.offset + c.size implies !#[trigger] in_reserve(w, x) by {
        assert(!free_block(v.blocks, x / 32768));
        if in_pieces(w.lists, x) {
            let j = choose|j: int|
                0 <= j < w.lists.len() && ((#[trigger] w.lists[j]).first matches Some(d)
                    && d.offset <= x < d.offset + d.size);
            assert(j != i);
            assert(v.lists[j].first == w.lists[j].first);
            assert(apart(
                c.offset as int,
                c.size as int,
                v.lists[j].first->0.offset as int,
                v.lists[j].first->0.size as int,
            ));
        }
    }
}

/// A piece that was not in the reserve is added to it, if anything is.
proof fn lemma_piece_in(v: LargeView, offset: int, size: int)
    requires
        pieces_apart(v),
        v.lists.len() == FREE_LIST_COUNT,
        piece_size(size),
        0 <= offset,
        offset + size <= usize::MAX,
        forall|i: int|
            0 <= i < v.lists.len() ==> ((#[trigger] v.lists[i]).first matches Some(c) ==> 0
                < c.size),
        forall|x: int| offset <= x < offset + size ==> !#[trigger] in_reserve(v, x),
    ensures
        ({
            let w = piece_added(v, offset, size);
            &&& pieces_apart(w)
            &&& forall|x: int| #[trigger]
                in_reserve(w, x) ==> in_reserve(v, x) || offset <= x < offset + size
            &&& forall|x: int| #[trigger] in_reserve(v, x) ==> in_reserve(w, x)
        }),
{
    let w = piece_added(v, offset, size);
    let n = size / 8192 - 1;
    assert(0 <= n < 3);
    let new = Chunk { offset: offset as usize, size: size as usize };
    assert forall|j: int| 0 <= j < v.lists.len() implies ((#[trigger] v.lists[j]).first matches Some(
        c,
    ) ==> apart(c.offset as int, c.size as int, offset, size)) by {
        if let Some(c) = v.lists[j].first {
            if !apart(c.offset as int, c.size as int, offset, size) {
                let x = if c.offset <= offset {
                    offset
                } else {
                    c.offset as int
                };
                assert(in_pieces(v.lists, x));
                assert(in_reserve(v, x));
            }
        }
    }
    assert forall|j: int| 0 <= j < w.lists.len() implies #[trigger] piece_apart(w, j) by {
        assert(piece_apart(v, j));
        if let Some(d) = w.lists[j].first {
            assert forall|x: int| d.offset <= x < d.offset + d.size implies !#[trigger] free_block(
                w.blocks,
                x / 32768,
            ) by {
                if v.lists[j].first is Some {
                    assert(!free_block(v.blocks, x / 32768));
                } else {
                    assert(!in_reserve(v, x));
                }
            }
            assert forall|k: int| 0 <= k < w.lists.len() && k != j implies ((
            #[trigger] w.lists[k]).first matches Some(e) ==> apart(
                d.offset as int,
                d.size as int,
                e.offset as int,
                e.size as int,
            )) by {
                assert(v.lists[k].first == w.lists[k].first || (k == n && w.lists[k].first == Some(
                    new,
                )));
                assert(v.lists[j].first == w.lists[j].first || (j == n && d == new));
            }
        }
    }
    assert forall|x: int| #[trigger] in_reserve(w, x) implies in_reserve(v, x) || offset <= x
        < offset + size by {
        if in_pieces(w.lists, x) {
            let j = choose|j: int|
                0 <= j < w.lists.len() && ((#[trigger] w.lists[j]).first matches Some(d)
                    && d.offset <= x < d.offset + d.size);
            if v.lists[j].first == w.lists[j].first {
                assert(in_pieces(v.lists, x));
            }
        }
    }
    assert forall|x: int| #[trigger] in_reserve(v, x) implies in_reserve(w, x) by {
        if in_pieces(v.lists, x) {
            let j = choose|j: int|
                0 <= j < v.lists.len() && ((#[trigger] v.lists[j]).first matches Some(d)
                    && d.offset <= x < d.offset + d.size);
            assert(v.lists[j].first == w.lists[j].first);
        }
    }
}

/// A run of blocks that is taken is not in the reserve any more.
proof fn lemma_run_out(v: LargeView, n: int)
    requires
        pieces_apart(v),
        blocks_ok(v.blocks),
        1 <= n,
    ensures
        ({
            let (blocks, r) = run_taken(v.blocks, n);
            let w = LargeView { blocks, ..v };
            &&& pieces_apart(w)
            &&& forall|x: int| #[trigger] in_reserve(w, x) ==> in_reserve(v, x)
            &&& r matches Some(b) ==> {
                &&& 0 <= b && b + n <= v.blocks.metas.len()
                &&& forall|x: int| b * 32768 <= x < (b + n) * 32768 ==> #[trigger] in_reserve(v, x)
                &&& forall|x: int| b * 32768 <= x < (b + n) * 32768 ==> !#[trigger] in_reserve(w, x)
            }
        }),
{
    let (blocks, r) = run_taken(v.blocks, n);
    let w = LargeView { blocks, ..v };
    lemma_run_taken(v.blocks, n);
    assert forall|c: int| #[trigger] free_block(w.blocks, c) implies free_block(v.blocks, c) by {}
    assert forall|j: int| 0 <= j < w.lists.len() implies #[trigger] piece_apart(w, j) by {
        assert(piece_apart(v, j));
        if let Some(d) = w.lists[j].first {
            assert forall|x: int| d.offset <= x < d.offset + d.size implies !#[trigger] free_block(
                w.blocks,
                x / 32768,
            ) by {
                assert(!free_block(v.blocks, x / 32768));
            }
        }
    }
    if let Some(b) = r {
        assert forall|x: int| b * 32768 <= x < (b + n) * 32768 implies #[trigger] in_reserve(
            v,
            x,
        ) by {
            assert(b <= x / 32768 < b + n);
            assert(free_block(v.blocks, x / 32768));
        }
        assert forall|x: int| b * 32768 <= x < (b + n) * 32768 implies !#[trigger] in_reserve(
            w,
            x,
        ) by {
            assert(b <= x / 32768 < b + n);
            assert(!free_block(w.blocks, x / 32768));
            assert(free_block(v.blocks, x / 32768));
            if in_pieces(w.lists, x) {
                let j = choose|j: int|
                    0 <= j < w.lists.len() && ((#[trigger] w.lists[j]).first matches Some(d)
                        && d.offset <= x < d.offset + d.size);
                assert(piece_apart(v, j));
                assert(!free_block(v.blocks, x / 32768));
            }
        }
    }
}

/// What allocating a large object does: its bytes were in the reserve and are not any more,
/// so that no other object gets them. Nothing new comes to the reserve, the place of the
/// object is noted, and there is no room only if neither a piece nor a run of blocks is long
/// enough.
pub proof fn lemma_large_allocated(v: LargeView, size: int, n: int)
    requires
        pieces_ok(v.lists, v.places),
        blocks_ok(v.blocks),
        pieces_apart(v),
        v.places.len() == 2048 * v.blocks.metas.len(),
        v.blocks.metas.len() * 32768 <= usize::MAX,
        8192 <= size,
        size % 8192 == 0,
        // The number of blocks that the object takes.
        (n - 1) * 32768 < size <= n * 32768,
    ensures
        ({
            let (w, r) = large_allocated(v, size);
            &&& pieces_apart(w)
            &&& forall|x: int| #[trigger] in_reserve(w, x) ==> in_reserve(v, x)
            &&& r matches Some(o) ==> {
                &&& forall|x: int| o <= x < o + size ==> #[trigger] in_reserve(v, x)
                &&& forall|x: int| o <= x < o + size ==> !#[trigger] in_reserve(w, x)
                &&& w.places[o / 16] == ObjectMeta::Allocated
            }
            &&& r is None <==> run_taken(v.blocks, n).1 is None && (size < 32768 ==> forall|i: int|
                0 <= i < v.lists.len() ==> ((#[trigger] v.lists[i]).first matches Some(c) ==> c.size
                    < size))
        }),
{
    let (w, r) = large_allocated(v, size);
    let (u, found) = piece_found(v, size);
    let first = size / 8192 - 1;
    let i = list_with_piece(v.lists, first);
    lemma_list_with_piece(v.lists, first);
    lemma_no_piece_before(v.lists, first);
    assert(n == (size + 32767) / 32768);
    assert forall|j: int| 0 <= j < v.lists.len() implies ((#[trigger] v.lists[j]).first matches Some(
        c,
    ) ==> c.size == 8192 * (j + 1)) by {}
    if size < BLOCK_TOTAL_SIZE && i < v.lists.len() {
        lemma_piece_out(v, i);
        assert(v.lists[i].first->0.size >= size);
    } else {
        lemma_run_out(v, n);
        if let Some(b) = run_taken(v.blocks, n).1 {
            assert(b * 32768 + n * 32768 <= v.blocks.metas.len() * 32768) by (nonlinear_arith)
                requires
                    b + n <= v.blocks.metas.len(),
            ;
            assert((b + n) * 32768 == b * 32768 + n * 32768);
        }
    }
    if let Some(c) = found {
        let o = c.offset as int;
        assert(c.offset % 16 == 0 && c.offset + c.size <= 16 * v.places.len());
        if c.size - 8192 >= size {
            assert forall|j: int| 0 <= j < u.lists.len() implies ((
            #[trigger] u.lists[j]).first matches Some(d) ==> 0 < d.size) by {
                assert(u.lists[j].first is Some ==> u.lists[j].first == v.lists[j].first);
            }
            lemma_piece_in(u, o + size, c.size - size);
            let t = piece_added(u, o + size, c.size - size);
            assert forall|x: int| #[trigger] in_reserve(w, x) <==> in_reserve(t, x) by {}
            lemma_places_change(t, w);
            assert forall|x: int| #[trigger] in_reserve(w, x) implies in_reserve(v, x) by {
                assert(in_reserve(t, x));
                if in_reserve(u, x) {
                } else {
                    assert(!in_reserve(u, x));
                    assert(in_reserve(v, x));
                }
            }
            assert forall|x: int| o <= x < o + size implies !#[trigger] in_reserve(w, x) by {
                assert(!in_reserve(u, x));
                assert(!in_reserve(t, x));
            }
        } else {
            assert forall|x: int| #[trigger] in_reserve(w, x) <==> in_reserve(u, x) by {}
            lemma_places_change(u, w);
            assert forall|x: int| o <= x < o + size implies !#[trigger] in_reserve(w, x) by {
                assert(!in_reserve(u, x));
            }
            assert forall|x: int| #[trigger] in_reserve(w, x) implies in_reserve(v, x) by {
                assert(in_reserve(u, x));
            }
        }
    }
}

/// The pieces are apart whatever the places hold.
proof fn lemma_places_change(v: LargeView, w: LargeView)
    requires
        pieces_apart(v),
        w.lists == v.lists,
        w.blocks == v.blocks,
    ensures
        pieces_apart(w),
{
    assert forall|j: int| 0 <= j < w.lists.len() implies #[trigger] piece_apart(w, j) by {
        assert(piece_apart(v, j));
    }
}

/// The list that is found is the first one with a piece.
proof fn lemma_no_piece_before(lists: Seq<FreeList>, i: int)
    ensures
        forall|j: int|
            i <= j < list_with_piece(lists, i) && j < lists.len() ==> (#[trigger] lists[j]).first
                is None,
    decreases lists.len() - i,
{
    if i < lists.len() && !(lists[i].first is Some) {
        lemma_no_piece_before(lists, i + 1);
    }
}

/// Whether what lies in piece `k` of the last block of a run, which starts at `last`, is
/// marked. The first piece belongs to the object at the start of the run.
pub open spec fn marked_in(v: LargeView, b: int, last: int, k: int) -> bool {
    if k == 0 {
        v.places[b * 2048] == ObjectMeta::Marked
    } else {
        v.places[last / 16 + 512 * k] == ObjectMeta::Marked
    }
}

/// Whether the object at piece `k` is still there after a sweep if it was marked, and gone if
/// it was not.
pub open spec fn kept_if_marked(v: LargeView, w: LargeView, b: int, last: int, k: int) -> bool {
    let place = if k == 0 {
        b * 2048
    } else {
        last / 16 + 512 * k
    };
    if marked_in(v, b, last, k) {
        w.places[place] == ObjectMeta::Allocated
    } else {
        w.places[place] != ObjectMeta::Allocated && w.places[place] != ObjectMeta::Marked
    }
}

spec fn same_place(v: LargeView, w: LargeView, last: int, k: int) -> bool {
    w.places[last / 16 + 512 * k] == v.places[last / 16 + 512 * k]
}

/// The view after the blocks in front of the last one have been freed, if they are dead.
spec fn front_swept(v: LargeView, b: int) -> LargeView {
    let n = v.blocks.metas[b].humongous_size as int;
    if n > 1 && v.places[b * 2048] != ObjectMeta::Marked {
        front_freed(v, b, n)
    } else {
        v
    }
}

/// Which blocks are free after a run has been swept.
proof fn lemma_blocks_swept(v: LargeView, b: int)
    requires
        can_sweep(v.blocks, b),
    ensures
        ({
            let n = v.blocks.metas[b].humongous_size as int;
            let last = (b + n - 1) * 32768;
            let dead = !marked_in(v, b, last, 0);
            &&& forall|c: int| #[trigger]
                free_block(front_swept(v, b).blocks, c) <==> free_block(v.blocks, c) || (dead && b
                    <= c < b + n - 1)
            &&& dead ==> forall|c: int| #[trigger]
                free_block(blocks_freed(front_swept(v, b).blocks, b + n - 1, 1), c) <==> free_block(
                    v.blocks,
                    c,
                ) || b <= c < b + n
        }),
{
    let n = v.blocks.metas[b].humongous_size as int;
    let last = (b + n - 1) * 32768;
    let dead = !marked_in(v, b, last, 0);
    let v1 = front_swept(v, b);
    if n > 1 && dead {
        lemma_blocks_freed(v.blocks, b, n - 1);
        lemma_freed_parts(v.blocks, b, n - 1);
        let f = blocks_freed(v.blocks, b, n - 1);
        assert forall|c: int| #[trigger] free_block(v1.blocks, c) <==> free_block(f, c) by {}
        let u = blocks_freed(v1.blocks, b + n - 1, 1);
        assert forall|c: int| #[trigger] free_block(u, c) <==> free_block(v1.blocks, c) || c == b + n
            - 1 by {}
    } else if n == 1 {
        lemma_blocks_freed(v.blocks, b, 1);
    }
}

/// What a piece adds to those that are found.
proof fn lemma_piece_listed(v: LargeView, offset: int, size: int)
    requires
        v.lists.len() == FREE_LIST_COUNT,
        piece_size(size),
        0 <= offset,
        offset + size <= usize::MAX,
    ensures
        piece_added(v, offset, size).lists.len() == FREE_LIST_COUNT,
        forall|x: int| #[trigger]
            in_pieces(piece_added(v, offset, size).lists, x) ==> in_pieces(v.lists, x) || offset
                <= x < offset + size,
{
    let w = piece_added(v, offset, size);
    assert forall|x: int| #[trigger] in_pieces(w.lists, x) implies in_pieces(v.lists, x) || offset
        <= x < offset + size by {
        let j = choose|j: int|
            0 <= j < w.lists.len() && ((#[trigger] w.lists[j]).first matches Some(d) && d.offset
                <= x < d.offset + d.size);
        if v.lists[j].first == w.lists[j].first {
            assert(in_pieces(v.lists, x));
        }
    }
}

/// Whether a sweep of the first `k` pieces of the last block of a run has kept what is marked
/// there and nothing else, and has made no marked piece free.
spec fn pieces_done(
    v: LargeView,
    w: LargeView,
    open: Option<int>,
    b: int,
    last: int,
    k: int,
) -> bool {
    &&& w.lists.len() == FREE_LIST_COUNT
    &&& w.places.len() == v.places.len()
    &&& kept_if_marked(v, w, b, last, 0)
    &&& forall|j: int| 1 <= j <= k ==> #[trigger] kept_if_marked(v, w, b, last, j)
    &&& forall|j: int| k < j <= 3 ==> #[trigger] same_place(v, w, last, j)
    &&& forall|p: int|
        0 <= p < v.places.len() && p != b * 2048 && !((p - last / 16) % 512 == 0 && last / 16 <= p
            < last / 16 + 2048) ==> #[trigger] w.places[p] == v.places[p]
    &&& open matches Some(from) ==> {
        &&& last <= from <= last + 8192 * k
        &&& (from - last) % 8192 == 0
        &&& forall|j: int|
            (from - last) / 8192 <= j <= k ==> !#[trigger] marked_in(v, b, last, j)
    }
    &&& open == Some(last) <==> forall|j: int|
        0 <= j <= k ==> !#[trigger] marked_in(v, b, last, j)
    &&& forall|x: int| #[trigger]
        in_pieces(w.lists, x) ==> in_pieces(v.lists, x) || (last <= x < last + 8192 * (k + 1)
            && !marked_in(v, b, last, (x - last) / 8192))
}

proof fn lemma_pieces_step(
    v: LargeView,
    w: LargeView,
    open: Option<int>,
    b: int,
    last: int,
    k: int,
)
    requires
        0 <= k < 3,
        0 <= b,
        b * 32768 <= last,
        last % 32768 == 0,
        last + 32768 <= 16 * v.places.len(),
        last + 32768 <= usize::MAX,
        pieces_done(v, w, open, b, last, k),
    ensures
        ({
            let (u, next) = place_swept(w, open, last + 8192 * (k + 1));
            &&& pieces_done(v, u, next, b, last, k + 1)
            &&& u.blocks == w.blocks
        }),
{
    let at = last + 8192 * (k + 1);
    let place = last / 16 + 512 * (k + 1);
    assert(at / 16 == place);
    let meta = w.places[place];
    assert(same_place(v, w, last, k + 1));
    assert(marked_in(v, b, last, k + 1) == (meta == ObjectMeta::Marked));
    let (u, next) = place_swept(w, open, at);
    if let Some(from) = open {
        if meta == ObjectMeta::Marked {
            lemma_piece_listed(w, from, at - from);
            let j0 = (from - last) / 8192;
            assert(from == last + 8192 * j0);
            assert(from / 16 == last / 16 + 512 * j0);
            assert(!marked_in(v, b, last, j0));
            assert forall|x: int| #[trigger] in_pieces(u.lists, x) implies in_pieces(v.lists, x) || (
            last <= x < last + 8192 * (k + 2) && !marked_in(v, b, last, (x - last) / 8192)) by {
                if from <= x < at {
                    let j = (x - last) / 8192;
                    assert(j0 <= j <= k);
                    assert(!marked_in(v, b, last, j));
                } else {
                    assert(in_pieces(w.lists, x));
                }
            }
        }
    }
    assert forall|j: int| 1 <= j <= k + 1 implies #[trigger] kept_if_marked(
        v,
        u,
        b,
        last,
        j,
    ) by {
        if j <= k {
            assert(kept_if_marked(v, w, b, last, j));
        }
    }
    assert forall|j: int| k + 1 < j <= 3 implies #[trigger] same_place(v, u, last, j) by {
        assert(same_place(v, w, last, j));
    }
    if next == Some(last) {
        assert forall|j: int| 0 <= j <= k + 1 implies !#[trigger] marked_in(v, b, last, j) by {
            assert(j <= k || j == k + 1);
        }
    }
}

/// What sweeping a run frees and keeps: marked objects stay, others go. The blocks in front
/// are freed with the object that starts there, and the last one if nothing in it is marked.
/// Free pieces in the last block hold nothing that is marked.
pub proof fn lemma_run_swept(v: LargeView, b: int)
    requires
        can_sweep(v.blocks, b),
        v.lists.len() == FREE_LIST_COUNT,
        v.places.len() == 2048 * v.blocks.metas.len(),
        v.blocks.metas.len() * 32768 <= usize::MAX,
    ensures
        ({
            let n = v.blocks.metas[b].humongous_size as int;
            let last = (b + n - 1) * 32768;
            let w = large_swept(v, b);
            &&& forall|c: int| #[trigger]
                free_block(w.blocks, c) <==> {
                    ||| free_block(v.blocks, c)
                    ||| !marked_in(v, b, last, 0) && b <= c < b + n - 1
                    ||| c == b + n - 1 && forall|j: int|
                        0 <= j <= 3 ==> !#[trigger] marked_in(v, b, last, j)
                }
            &&& w.places.len() == v.places.len()
            &&& forall|j: int| 0 <= j <= 3 ==> #[trigger] kept_if_marked(v, w, b, last, j)
            &&& forall|x: int| #[trigger]
                in_pieces(w.lists, x) ==> in_pieces(v.lists, x) || (last <= x < last + 32768
                    && !marked_in(v, b, last, (x - last) / 8192))
        }),
{
    let n = v.blocks.metas[b].humongous_size as int;
    let last = (b + n - 1) * 32768;
    let dead = !marked_in(v, b, last, 0);
    let v1 = front_swept(v, b);
    lemma_blocks_swept(v, b);
    assert(b * 32768 / 16 == b * 2048);
    assert(last / 16 == (b + n - 1) * 2048);
    assert(b * 32768 <= last);
    assert(last + 32768 == (b + n) * 32768);
    assert((b + n) * 32768 <= v.blocks.metas.len() * 32768) by (nonlinear_arith)
        requires
            b + n <= v.blocks.metas.len(),
    ;
    let v2 = LargeView {
        places: v1.places.update(b * 32768 / 16, meta_swept(v1.places[b * 32768 / 16])),
        ..v1
    };
    let first: Option<int> = if dead {
        Some(last)
    } else {
        None
    };
    assert(pieces_done(v, v2, first, b, last, 0));
    reveal_with_fuel(places_swept, 4);
    let (w1, o1) = place_swept(v2, first, last + 8192 * 1);
    lemma_pieces_step(v, v2, first, b, last, 0);
    let (w2, o2) = place_swept(w1, o1, last + 8192 * 2);
    lemma_pieces_step(v, w1, o1, b, last, 1);
    let (w3, o3) = place_swept(w2, o2, last + 8192 * 3);
    lemma_pieces_step(v, w2, o2, b, last, 2);
    assert(places_swept(v2, first, last, 3) == (w3, o3));
    let w = large_swept(v, b);
    assert(w == match o3 {
        None => w3,
        Some(from) => if from == last {
            LargeView { blocks: blocks_freed(w3.blocks, b + n - 1, 1), ..w3 }
        } else {
            piece_added(w3, from, last + 32768 - from)
        },
    });
    assert(w3.blocks == v1.blocks);
    if o3 == Some(last) {
        assert(dead) by {
            assert(!marked_in(v, b, last, 0));
        }
        assert forall|c: int| #[trigger] free_block(w.blocks, c) <==> free_block(v.blocks, c) || b
            <= c < b + n by {}
    } else {
        assert forall|c: int| #[trigger] free_block(w.blocks, c) <==> free_block(v.blocks, c) || (
        dead && b <= c < b + n - 1) by {}
    }
    if let Some(from) = o3 {
        if from != last {
            lemma_piece_listed(w3, from, last + 32768 - from);
            let j0 = (from - last) / 8192;
            assert(from / 16 == last / 16 + 512 * j0);
            assert(!marked_in(v, b, last, j0));
            assert forall|x: int| #[trigger] in_pieces(w.lists, x) implies in_pieces(v.lists, x) || (
            last <= x < last + 32768 && !marked_in(v, b, last, (x - last) / 8192)) by {
                if from <= x < last + 32768 {
                    let j = (x - last) / 8192;
                    assert(j0 <= j <= 3);
                    assert(!marked_in(v, b, last, j));
                } else {
                    assert(in_pieces(w3.lists, x));
                }
            }
        }
    }
    assert forall|j: int| 0 <= j <= 3 implies #[trigger] kept_if_marked(v, w, b, last, j) by {
        assert(kept_if_marked(v, w3, b, last, j));
    }
}

} // verus!
