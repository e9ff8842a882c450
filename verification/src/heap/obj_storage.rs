//! References to objects from outside of the heap.
//!
//! A storage is a set of blocks. A block has entries, and a bitmask that says which of
//! them are in use. Blocks with unused entries are in a list, those without used entries
//! at its end. A block whose state has changed by a release is put aside first, and is
//! brought to its place in the list when the next entry is needed.

use vstd::prelude::*;

use crate::base::bitset::bit64;

verus! {

/// The state of an entry.
#[derive(Clone, Copy, PartialEq, Eq, PartialOrd, Ord, Debug, Hash, Structural)]
pub enum EntryStatus {
    Invalid,
    Unallocated,
    Allocated,
}

/// The number of entries of a block.
pub const BULK_ALLOCATE_LIMIT: usize = 64;

pub const SECTION_SIZE: usize = 8;

pub const SECTION_COUNT: usize = 8;

pub const BLOCK_ALIGNMENT: usize = 64;

/// The bytes of a block: its entries, and eight words of bookkeeping.
pub const BLOCK_SIZE: usize = 576;

/// The neighbours of a block in a list.
#[derive(Clone, Copy, PartialEq, Eq, Debug, Structural)]
pub struct AllocationListEntry {
    pub prev: Option<usize>,
    pub next: Option<usize>,
}

impl AllocationListEntry {
    pub fn new() -> (r: Self)
        ensures
            r == (AllocationListEntry { prev: None, next: None }),
    {
        AllocationListEntry { prev: None, next: None }
    }
}

/// A block of entries.
#[derive(Clone, Copy, PartialEq, Eq, Debug, Structural)]
pub struct Block {
    pub allocated_bitmask: u64,
    pub active_index: usize,
    pub allocation_list_entry: AllocationListEntry,
    /// Whether the block has been put aside.
    pub deferred: bool,
}

/// Whether all entries of a bitmask are in use.
pub open spec fn full_mask(mask: u64) -> bool {
    mask == 0xffff_ffff_ffff_ffff
}

proof fn lemma_masks(m: u64, i: u64, j: u64)
    by (bit_vector)
    requires
        i < 64,
        j < 64,
    ensures
        (1u64 << i) != 0,
        ((1u64 << i) >> j) & 1 == 1 <==> i == j,
        ((m ^ (1u64 << i)) >> j) & 1 == 1 <==> (i == j) != ((m >> j) & 1 == 1),
        ((m & !(1u64 << i)) >> j) & 1 == 1 <==> i != j && (m >> j) & 1 == 1,
        (m >> i) & 1 == 0 ==> m + (1u64 << i) <= 0xffff_ffff_ffff_ffff && ((((m + (1u64
            << i)) as u64) >> j) & 1 == 1 <==> i == j || (m >> j) & 1 == 1),
        ((!m) >> j) & 1 == 1 <==> (m >> j) & 1 == 0,
        (m >> j) & 1 == 0 || (m >> j) & 1 == 1,
        !m == 0 <==> m == 0xffff_ffff_ffff_ffff,
        (0u64 >> j) & 1 == 0,
        (0xffff_ffff_ffff_ffffu64 >> j) & 1 == 1,
{
}

proof fn lemma_xor_bits(a: u64, b: u64, j: u64)
    by (bit_vector)
    requires
        j < 64,
    ensures
        ((a ^ b) >> j) & 1 == 1 <==> ((a >> j) & 1 == 1) != ((b >> j) & 1 == 1),
        a ^ a == 0,
{
}

proof fn lemma_full(m: u64)
    ensures
        full_mask(m) <==> forall|j: int| 0 <= j < 64 ==> #[trigger] bit64(m, j),
{
    if full_mask(m) {
        assert forall|j: int| 0 <= j < 64 implies #[trigger] bit64(m, j) by {
            lemma_masks(m, 0, j as u64);
        }
    } else {
        lemma_masks(m, 0, 0);
        assert(!m != 0);
        vstd::std_specs::bits::axiom_u64_trailing_zeros(!m);
        let z = vstd::std_specs::bits::u64_trailing_zeros(!m);
        assert(((!m) >> (z as u64)) & 1u64 == 1u64);
        lemma_masks(m, 0, z as u64);
        assert(!bit64(m, z as int));
    }
}

impl Block {
    /// Whether an entry is in use.
    pub open spec fn used(&self, i: int) -> bool {
        0 <= i < 64 && bit64(self.allocated_bitmask, i)
    }

    pub fn new() -> (r: Self)
        ensures
            r.allocated_bitmask == 0,
            r.active_index == 0,
            r.allocation_list_entry == (AllocationListEntry { prev: None, next: None }),
            !r.deferred,
            forall|i: int| !#[trigger] r.used(i),
    {
        let r = Block {
            allocated_bitmask: 0,
            active_index: 0,
            allocation_list_entry: AllocationListEntry::new(),
            deferred: false,
        };
        proof {
            assert forall|i: int| !#[trigger] r.used(i) by {
                if 0 <= i < 64 {
                    lemma_masks(0, 0, i as u64);
                }
            }
        }
        r
    }

    pub fn allocation_list_entry(&self) -> (r: AllocationListEntry)
        ensures
            r == self.allocation_list_entry,
    {
        self.allocation_list_entry
    }

    /// Whether an index is one of an entry.
    pub fn check_index(&self, index: usize) -> (r: bool)
        ensures
            r == (index < 64),
    {
        index < BULK_ALLOCATE_LIMIT
    }

    pub fn allocated_bitmask(&self) -> (r: u64)
        ensures
            r == self.allocated_bitmask,
    {
        self.allocated_bitmask
    }

    pub fn bitmask_for_index(&self, index: usize) -> (r: u64)
        requires
            index < 64,
        ensures
            r == 1u64 << (index as u64),
            forall|j: int| 0 <= j < 64 ==> (#[trigger] bit64(r, j) <==> j == index),
    {
        proof {
            assert forall|j: int| 0 <= j < 64 implies (#[trigger] bit64(
                1u64 << (index as u64),
                j,
            ) <==> j == index) by {
                lemma_masks(0, index as u64, j as u64);
            }
        }
        1u64 << (index as u64)
    }

    /// The entries that are in use, in order.
    pub fn entries(&self) -> (r: Vec<usize>)
        ensures
            forall|k: int| 0 <= k < r@.len() ==> self.used((#[trigger] r@[k]) as int),
            forall|i: int| #[trigger] self.used(i) ==> r@.contains(i as usize),
            forall|a: int, b: int| 0 <= a < b < r@.len() ==> r@[a] < r@[b],
    {
        let mut out: Vec<usize> = Vec::new();
        let mut bitmask: u64 = self.allocated_bitmask;
        let ghost mut done: int = 0;
        while bitmask != 0
            invariant
                0 <= done <= 64,
                forall|j: int|
                    0 <= j < 64 ==> (#[trigger] bit64(bitmask, j) <==> j >= done && bit64(
                        self.allocated_bitmask,
                        j,
                    )),
                forall|k: int| 0 <= k < out@.len() ==> self.used((#[trigger] out@[k]) as int),
                forall|k: int| 0 <= k < out@.len() ==> (#[trigger] out@[k]) < done,
                forall|i: int| #[trigger] self.used(i) && i < done ==> out@.contains(i as usize),
                forall|a: int, b: int| 0 <= a < b < out@.len() ==> out@[a] < out@[b],
            decreases 64 - done,
        {
            let index: u32 = bitmask.trailing_zeros();
            let ghost before = bitmask;
            let ghost out0 = out@;
            proof {
                vstd::std_specs::bits::axiom_u64_trailing_zeros(bitmask);
                assert(bit64(bitmask, index as int));
            }
            out.push(index as usize);
            bitmask = bitmask & !(1u64 << (index as u64));
            proof {
                assert forall|j: int| 0 <= j < 64 implies (#[trigger] bit64(bitmask, j) <==> j
                    >= index + 1 && bit64(self.allocated_bitmask, j)) by {
                    lemma_masks(before, index as u64, j as u64);
                    if j < index {
                        assert((before >> (j as u64)) & 1u64 == 0u64);
                        assert(!bit64(before, j));
                    } else {
                        assert(bit64(before, j) <==> bit64(self.allocated_bitmask, j));
                    }
                }
                assert forall|i: int| #[trigger] self.used(i) && i < index + 1 implies out@.contains(
                    i as usize,
                ) by {
                    if i < done {
                        let w = choose|w: int| 0 <= w < out0.len() && out0[w] == i as usize;
                        assert(out@[w] == i as usize);
                    } else if i < index {
                        assert((before >> (i as u64)) & 1u64 == 0u64);
                        assert(bit64(before, i));
                    } else {
                        assert(out@[out@.len() - 1] == i as usize);
                    }
                }
                done = index + 1;
            }
        }
        proof {
            assert forall|i: int| #[trigger] self.used(i) implies out@.contains(i as usize) by {
                if i >= done {
                    assert(bit64(bitmask, i));
                    lemma_masks(0, 0, i as u64);
                }
            }
        }
        out
    }

    /// Hands the entries that are in use to `f`, in order, up to the first that `f` refuses.
    /// Tells whether `f` refused none.
    pub fn iterate<F: Fn(usize) -> bool>(&self, f: F) -> (r: bool)
        requires
            forall|i: usize| self.used(i as int) ==> call_requires(f, (i,)),
        ensures
            r ==> forall|i: usize| self.used(i as int) ==> call_ensures(f, (i,), true),
            !r ==> exists|i: usize| #[trigger]
                self.used(i as int) && call_ensures(f, (i,), false) && forall|j: usize|
                    j < i && self.used(j as int) ==> call_ensures(f, (j,), true),
    {
        let list: Vec<usize> = self.entries();
        let mut k: usize = 0;
        while k < list.len()
            invariant
                k <= list@.len(),
                forall|i: usize| self.used(i as int) ==> call_requires(f, (i,)),
                forall|k: int| 0 <= k < list@.len() ==> self.used((#[trigger] list@[k]) as int),
                forall|i: int| #[trigger] self.used(i) ==> list@.contains(i as usize),
                forall|a: int, b: int| 0 <= a < b < list@.len() ==> list@[a] < list@[b],
                forall|j: int| 0 <= j < k ==> call_ensures(f, (#[trigger] list@[j],), true),
            decreases list@.len() - k,
        {
            let index: usize = list[k];
            assert(self.used(list@[k as int] as int));
            if !f(index) {
                proof {
                    assert forall|j: usize| j < index && self.used(j as int) implies call_ensures(
                        f,
                        (j,),
                        true,
                    ) by {
                        assert(list@.contains(j));
                        let w = choose|w: int| 0 <= w < list@.len() && list@[w] == j;
                        assert(w < k) by {
                            if w > k {
                                assert(list@[k as int] < list@[w]);
                            }
                        }
                        assert(call_ensures(f, (list@[w],), true));
                    }
                }
                return false;
            }
            k = k + 1;
        }
        proof {
            assert forall|i: usize| self.used(i as int) implies call_ensures(f, (i,), true) by {
                assert(list@.contains(i));
                let w = choose|w: int| 0 <= w < list@.len() && list@[w] == i;
                assert(call_ensures(f, (list@[w],), true));
            }
        }
        true
    }

    /// The bytes to ask for so that a block fits in them once it is aligned.
    pub fn allocation_size() -> (r: usize)
        ensures
            r == BLOCK_SIZE + BLOCK_ALIGNMENT - 8,
    {
        BLOCK_SIZE + BLOCK_ALIGNMENT - 8
    }

    /// The exponent of the alignment of a block.
    pub fn allocation_alignment_shift() -> (r: usize)
        ensures
            vstd::arithmetic::power2::pow2(r as nat) == BLOCK_ALIGNMENT,
    {
        proof {
            vstd::arithmetic::power2::lemma2_to64();
        }
        6
    }

    /// The index of the entry at an address. The entries start at `base`.
    pub fn get_index(base: usize, ptr: usize) -> (r: usize)
        requires
            base <= ptr,
        ensures
            r == (ptr - base) / 8,
    {
        (ptr - base) / 8
    }

    /// The bitmask for the entry at an address. The entries start at `base`.
    pub fn bitmask_for_entry(&self, base: usize, ptr: usize) -> (r: u64)
        requires
            base <= ptr < base + 8 * BULK_ALLOCATE_LIMIT,
        ensures
            r == 1u64 << (((ptr - base) / 8) as u64),
            forall|j: int| 0 <= j < 64 ==> (#[trigger] bit64(r, j) <==> j == (ptr - base) / 8),
    {
        self.bitmask_for_index(Self::get_index(base, ptr))
    }

    pub fn is_full_bitmask(bitmask: u64) -> (r: bool)
        ensures
            r == full_mask(bitmask),
    {
        proof {
            lemma_masks(bitmask, 0, 0);
        }
        !bitmask == 0
    }

    pub fn is_empty_bitmask(bitmask: u64) -> (r: bool)
        ensures
            r == (bitmask == 0),
    {
        bitmask == 0
    }

    pub fn is_full(&self) -> (r: bool)
        ensures
            r == full_mask(self.allocated_bitmask),
    {
        Self::is_full_bitmask(self.allocated_bitmask())
    }

    pub fn is_empty(&self) -> (r: bool)
        ensures
            r == (self.allocated_bitmask == 0),
    {
        Self::is_empty_bitmask(self.allocated_bitmask())
    }

    /// Takes the first unused entry.
    pub fn allocate(&mut self) -> (r: usize)
        requires
            !full_mask(old(self).allocated_bitmask),
        ensures
            r < 64,
            !old(self).used(r as int),
            forall|i: int| 0 <= i < r ==> #[trigger] old(self).used(i),
            forall|i: int| #[trigger] final(self).used(i) <==> old(self).used(i) || i == r,
            *final(self) == (Block {
                allocated_bitmask: final(self).allocated_bitmask,
                ..*old(self)
            }),
    {
        let allocated: u64 = self.allocated_bitmask;
        proof {
            lemma_masks(allocated, 0, 0);
            vstd::std_specs::bits::axiom_u64_trailing_zeros(!allocated);
        }
        let index: u32 = (!allocated).trailing_zeros();
        proof {
            assert(((!allocated) >> (index as u64)) & 1u64 == 1u64);
            lemma_masks(allocated, index as u64, index as u64);
            assert forall|i: int| 0 <= i < index implies #[trigger] old(self).used(i) by {
                assert(((!allocated) >> (i as u64)) & 1u64 == 0u64);
                lemma_masks(allocated, index as u64, i as u64);
            }
        }
        self.allocated_bitmask = allocated + (1u64 << (index as u64));
        proof {
            assert forall|i: int| #[trigger] self.used(i) <==> old(self).used(i) || i == index by {
                if 0 <= i < 64 {
                    lemma_masks(allocated, index as u64, i as u64);
                }
            }
        }
        index as usize
    }

    /// Takes all unused entries, and returns their bitmask.
    pub fn allocate_all(&mut self) -> (r: u64)
        ensures
            r == !old(self).allocated_bitmask,
            forall|i: int| 0 <= i < 64 ==> (#[trigger] bit64(r, i) <==> !old(self).used(i)),
            *final(self) == (Block { allocated_bitmask: 0xffff_ffff_ffff_ffff, ..*old(self) }),
    {
        let allocated: u64 = self.allocated_bitmask;
        let new_allocated: u64 = !allocated;
        proof {
            lemma_sum(allocated);
            assert forall|i: int| 0 <= i < 64 implies (#[trigger] bit64(new_allocated, i) <==> !old(self).used(i)) by {
                lemma_masks(allocated, 0, i as u64);
            }
        }
        self.allocated_bitmask = allocated + new_allocated;
        new_allocated
    }
}

proof fn lemma_sum(m: u64)
    by (bit_vector)
    ensures
        m + !m == 0xffff_ffff_ffff_ffff,
{
}

/// A list of blocks that are linked in both directions. What is in the list, in order, is
/// noted as well.
pub struct AllocationList {
    head: Option<usize>,
    tail: Option<usize>,
    order: Ghost<Seq<usize>>,
}

/// Whether a block of a list has the links that its place asks for.
pub open spec fn link_ok(blocks: Seq<Block>, order: Seq<usize>, i: int) -> bool {
    &&& order[i] < blocks.len()
    &&& blocks[order[i] as int].allocation_list_entry == (AllocationListEntry {
        prev: if i == 0 {
            None
        } else {
            Some(order[i - 1])
        },
        next: if i == order.len() - 1 {
            None
        } else {
            Some(order[i + 1])
        },
    })
}

/// Whether blocks are linked in the given order, and no others are.
pub open spec fn linked(blocks: Seq<Block>, order: Seq<usize>) -> bool {
    &&& forall|i: int, j: int| 0 <= i < j < order.len() ==> order[i] != order[j]
    &&& forall|i: int| 0 <= i < order.len() ==> #[trigger] link_ok(blocks, order, i)
    &&& forall|b: int|
        0 <= b < blocks.len() && !order.contains(b as usize) ==> (
        #[trigger] blocks[b]).allocation_list_entry == (AllocationListEntry {
            prev: None,
            next: None,
        })
}

/// Whether two states of blocks differ in their links only.
pub open spec fn same_but_links(a: Seq<Block>, b: Seq<Block>) -> bool {
    &&& a.len() == b.len()
    &&& forall|i: int|
        0 <= i < a.len() ==> (#[trigger] a[i]) == (Block {
            allocation_list_entry: a[i].allocation_list_entry,
            ..b[i]
        })
}

impl AllocationList {
    pub closed spec fn view(&self) -> Seq<usize> {
        self.order@
    }

    /// The ends of the list are those of its order.
    pub closed spec fn ends_ok(&self) -> bool {
        &&& self.head == if self.order@.len() == 0 {
            None
        } else {
            Some(self.order@[0])
        }
        &&& self.tail == if self.order@.len() == 0 {
            None
        } else {
            Some(self.order@.last())
        }
    }

    /// The blocks are linked in the order of the list.
    pub closed spec fn wf(&self, blocks: Seq<Block>) -> bool {
        &&& linked(blocks, self.order@)
        &&& self.ends_ok()
        &&& blocks.len() <= usize::MAX
    }

    pub proof fn lemma_wf(&self, blocks: Seq<Block>)
        requires
            self.wf(blocks),
        ensures
            linked(blocks, self@),
            self.ends_ok(),
            blocks.len() <= usize::MAX,
    {
    }

    /// What holds of links is kept when something else changes.
    pub proof fn lemma_same_links(&self, a: Seq<Block>, b: Seq<Block>)
        requires
            self.wf(a),
            a.len() == b.len(),
            forall|i: int|
                0 <= i < a.len() ==> (#[trigger] a[i]).allocation_list_entry
                    == b[i].allocation_list_entry,
        ensures
            self.wf(b),
    {
        let o = self.order@;
        assert forall|i: int| 0 <= i < o.len() implies #[trigger] link_ok(b, o, i) by {
            assert(link_ok(a, o, i));
            assert(a[self.order@[i] as int].allocation_list_entry
                == b[self.order@[i] as int].allocation_list_entry);
        }
        assert forall|k: int| 0 <= k < b.len() && !self.order@.contains(k as usize) implies (
        #[trigger] b[k]).allocation_list_entry == (AllocationListEntry {
            prev: None,
            next: None,
        }) by {
            assert(a[k].allocation_list_entry == b[k].allocation_list_entry);
        }
    }

    /// A block that is not in the list may be added to the blocks.
    pub proof fn lemma_more_blocks(&self, blocks: Seq<Block>, b: Block)
        requires
            self.wf(blocks),
            b.allocation_list_entry == (AllocationListEntry { prev: None, next: None }),
            blocks.len() < usize::MAX,
        ensures
            self.wf(blocks.push(b)),
            !self@.contains(blocks.len() as usize),
    {
        let more = blocks.push(b);
        let o = self.order@;
        assert forall|i: int| 0 <= i < o.len() implies #[trigger] link_ok(more, o, i) by {
            assert(link_ok(blocks, o, i));
            assert(more[self.order@[i] as int] == blocks[self.order@[i] as int]);
        }
        if self@.contains(blocks.len() as usize) {
            let i = choose|i: int| 0 <= i < self@.len() && self@[i] == blocks.len() as usize;
            assert(link_ok(blocks, o, i));
        }
    }

    pub fn new() -> (r: Self)
        ensures
            r@ == Seq::<usize>::empty(),
            r.wf(Seq::empty()),
    {
        AllocationList { head: None, tail: None, order: Ghost(Seq::empty()) }
    }

    pub fn head(&self) -> (r: Option<usize>)
        requires
            self.ends_ok(),
        ensures
            r == if self@.len() == 0 {
                None
            } else {
                Some(self@[0])
            },
    {
        self.head
    }

    pub fn tail(&self) -> (r: Option<usize>)
        requires
            self.ends_ok(),
        ensures
            r == if self@.len() == 0 {
                None
            } else {
                Some(self@.last())
            },
    {
        self.tail
    }

    /// Whether a block is in the list.
    pub fn contains(&self, blocks: &Vec<Block>, block: usize) -> (r: bool)
        requires
            self.wf(blocks@),
            block < blocks@.len(),
        ensures
            r == self@.contains(block),
    {
        let r: bool = blocks[block].allocation_list_entry.next.is_some() || self.tail == Some(block);
        proof {
            if self@.contains(block) {
                let i = choose|i: int| 0 <= i < self@.len() && self@[i] == block;
                assert(link_ok(blocks@, self.order@, i));
            } else {
                assert(blocks@[block as int].allocation_list_entry.next is None);
                if self.tail == Some(block) {
                    assert(self.order@[self.order@.len() - 1] == block);
                }
            }
        }
        r
    }

    /// Adds a block at the front.
    pub fn push_front(&mut self, blocks: &mut Vec<Block>, block: usize)
        requires
            old(self).wf(old(blocks)@),
            block < old(blocks)@.len(),
            !old(self)@.contains(block),
        ensures
            final(self).wf(final(blocks)@),
            final(self)@ == seq![block] + old(self)@,
            same_but_links(final(blocks)@, old(blocks)@),
    {
        let ghost order = self.order@;
        let ghost b0 = blocks@;
        let ghost next = seq![block] + order;
        match self.head {
            None => {
                self.head = Some(block);
                self.tail = Some(block);
            },
            Some(first) => {
                assert(link_ok(b0, order, 0));
                let mut e: Block = blocks[block];
                e.allocation_list_entry.next = Some(first);
                blocks.set(block, e);
                let mut f: Block = blocks[first];
                f.allocation_list_entry.prev = Some(block);
                blocks.set(first, f);
                self.head = Some(block);
            },
        }
        self.order = Ghost(next);
        proof {
            assert forall|i: int, j: int| 0 <= i < j < next.len() implies next[i] != next[j] by {
                if i == 0 {
                    assert(next[j] == order[j - 1]);
                    assert(order.contains(order[j - 1]));
                } else {
                    assert(next[i] == order[i - 1] && next[j] == order[j - 1]);
                }
            }
            assert forall|i: int| 0 <= i < next.len() implies #[trigger] link_ok(
                blocks@,
                next,
                i,
            ) by {
                if i > 0 {
                    assert(next[i] == order[i - 1]);
                    assert(link_ok(b0, order, i - 1));
                    assert(order.contains(order[i - 1]));
                    if i > 1 {
                        assert(order[i - 1] != order[0]);
                        assert(next[i - 1] == order[i - 2]);
                    }
                    if i < next.len() - 1 {
                        assert(next[i + 1] == order[i]);
                    }
                } else {
                    assert(b0[block as int].allocation_list_entry.prev is None);
                    if next.len() > 1 {
                        assert(next[1] == order[0]);
                    }
                }
            }
            assert forall|b: int| 0 <= b < blocks@.len() && !next.contains(b as usize) implies (
            #[trigger] blocks@[b]).allocation_list_entry == (AllocationListEntry {
                prev: None,
                next: None,
            }) by {
                assert(next[0] == block);
                if order.contains(b as usize) {
                    let w = choose|w: int| 0 <= w < order.len() && order[w] == b as usize;
                    assert(next[w + 1] == b as usize);
                }
                if order.len() > 0 {
                    assert(next[1] == order[0]);
                }
                assert(b0[b].allocation_list_entry == (AllocationListEntry {
                    prev: None,
                    next: None,
                }));
            }
        }
    }

    /// Adds a block at the back.
    pub fn push_back(&mut self, blocks: &mut Vec<Block>, block: usize)
        requires
            old(self).wf(old(blocks)@),
            block < old(blocks)@.len(),
            !old(self)@.contains(block),
        ensures
            final(self).wf(final(blocks)@),
            final(self)@ == old(self)@.push(block),
            same_but_links(final(blocks)@, old(blocks)@),
    {
        let ghost order = self.order@;
        let ghost b0 = blocks@;
        let ghost next = order.push(block);
        match self.tail {
            None => {
                self.head = Some(block);
                self.tail = Some(block);
            },
            Some(last) => {
                assert(link_ok(b0, order, order.len() - 1));
                let mut e: Block = blocks[block];
                e.allocation_list_entry.prev = Some(last);
                blocks.set(block, e);
                let mut f: Block = blocks[last];
                f.allocation_list_entry.next = Some(block);
                blocks.set(last, f);
                self.tail = Some(block);
            },
        }
        self.order = Ghost(next);
        proof {
            let n = order.len() as int;
            assert forall|i: int, j: int| 0 <= i < j < next.len() implies next[i] != next[j] by {
                assert(order.contains(order[i]));
            }
            assert forall|i: int| 0 <= i < next.len() implies #[trigger] link_ok(
                blocks@,
                next,
                i,
            ) by {
                if i < n {
                    assert(next[i] == order[i]);
                    assert(link_ok(b0, order, i));
                    assert(order.contains(order[i]));
                    if i < n - 1 {
                        assert(order[i] != order[n - 1]);
                        assert(next[i + 1] == order[i + 1]);
                    }
                } else {
                    assert(b0[block as int].allocation_list_entry.next is None);
                }
            }
            assert forall|b: int| 0 <= b < blocks@.len() && !next.contains(b as usize) implies (
            #[trigger] blocks@[b]).allocation_list_entry == (AllocationListEntry {
                prev: None,
                next: None,
            }) by {
                assert(next[n] == block);
                if order.contains(b as usize) {
                    let w = choose|w: int| 0 <= w < order.len() && order[w] == b as usize;
                    assert(next[w] == b as usize);
                }
                if n > 0 {
                    assert(next[n - 1] == order[n - 1]);
                }
                assert(b0[b].allocation_list_entry == (AllocationListEntry {
                    prev: None,
                    next: None,
                }));
            }
        }
    }

    /// Takes a block out of the list.
    pub fn unlink(&mut self, blocks: &mut Vec<Block>, block: usize)
        requires
            old(self).wf(old(blocks)@),
            block < old(blocks)@.len(),
            old(self)@.contains(block),
        ensures
            final(self).wf(final(blocks)@),
            exists|i: int|
                0 <= i < old(self)@.len() && (#[trigger] old(self)@[i]) == block
                    && final(self)@ == old(self)@.remove(i),
            !final(self)@.contains(block),
            forall|b: usize| b != block ==> (#[trigger] final(self)@.contains(b) <==> old(self)@.contains(b)),
            same_but_links(final(blocks)@, old(blocks)@),
    {
        let ghost order = self.order@;
        let ghost b0 = blocks@;
        let ghost at = choose|i: int| 0 <= i < order.len() && order[i] == block;
        let ghost n = order.len() as int;
        let ghost next = order.remove(at);
        assert(link_ok(b0, order, at));
        let entry: AllocationListEntry = blocks[block].allocation_list_entry;
        match entry.prev {
            None => {
                self.head = entry.next;
            },
            Some(p) => {
                assert(link_ok(b0, order, at - 1));
                let mut e: Block = blocks[p];
                e.allocation_list_entry.next = entry.next;
                blocks.set(p, e);
            },
        }
        match entry.next {
            None => {
                self.tail = entry.prev;
            },
            Some(q) => {
                assert(link_ok(b0, order, at + 1));
                let mut e: Block = blocks[q];
                e.allocation_list_entry.prev = entry.prev;
                blocks.set(q, e);
            },
        }
        let mut e: Block = blocks[block];
        e.allocation_list_entry = AllocationListEntry::new();
        blocks.set(block, e);
        self.order = Ghost(next);
        proof {
            lemma_removed(order, at);
            if at > 0 {
                assert(order[at - 1] != order[at]);
            }
            if at + 1 < n {
                assert(order[at] != order[at + 1]);
                if at > 0 {
                    assert(order[at - 1] != order[at + 1]);
                }
            }
            assert forall|b: int| 0 <= b < b0.len() implies (
            #[trigger] blocks@[b]).allocation_list_entry == relinked(b0, order, at, b) by {}
            lemma_unlinked(b0, blocks@, order, at);
            assert(order[at] == block);
            if next.len() > 0 {
                assert(next[0] == order[skipping(at, 0)]);
                assert(next[next.len() - 1] == order[skipping(at, next.len() - 1)]);
            }
        }
    }
}

/// The links of a block after another one has been taken out.
spec fn relinked(b0: Seq<Block>, order: Seq<usize>, at: int, b: int) -> AllocationListEntry {
    if b == order[at] {
        AllocationListEntry { prev: None, next: None }
    } else {
        AllocationListEntry {
            prev: if at + 1 < order.len() && b == order[at + 1] {
                b0[order[at] as int].allocation_list_entry.prev
            } else {
                b0[b].allocation_list_entry.prev
            },
            next: if at > 0 && b == order[at - 1] {
                b0[order[at] as int].allocation_list_entry.next
            } else {
                b0[b].allocation_list_entry.next
            },
        }
    }
}

/// The place, in a list, of what is at a place of the list without an element.
spec fn skipping(at: int, i: int) -> int {
    if i < at {
        i
    } else {
        i + 1
    }
}

/// What is left of a list without an element.
proof fn lemma_removed(order: Seq<usize>, at: int)
    requires
        0 <= at < order.len(),
        forall|i: int, j: int| 0 <= i < j < order.len() ==> order[i] != order[j],
    ensures
        ({
            let next = order.remove(at);
            &&& forall|i: int, j: int| 0 <= i < j < next.len() ==> next[i] != next[j]
            &&& !next.contains(order[at])
            &&& forall|b: usize|
                b != order[at] ==> (#[trigger] next.contains(b) <==> order.contains(b))
        }),
{
    let next = order.remove(at);
    let n = order.len() as int;
    assert forall|i: int| 0 <= i < next.len() implies #[trigger] next[i] == order[skipping(
        at,
        i,
    )] by {}
    assert forall|i: int, j: int| 0 <= i < j < next.len() implies next[i] != next[j] by {
        assert(order[skipping(at, i)] != order[skipping(at, j)]);
    }
    assert forall|b: usize| b != order[at] implies (#[trigger] next.contains(b) <==> order.contains(
        b,
    )) by {
        if order.contains(b) {
            let w = choose|w: int| 0 <= w < n && order[w] == b;
            if w < at {
                assert(next[w] == b);
            } else {
                assert(next[w - 1] == b);
            }
        }
        if next.contains(b) {
            let w = choose|w: int| 0 <= w < next.len() && next[w] == b;
            assert(order[skipping(at, w)] == b);
        }
    }
    if next.contains(order[at]) {
        let w = choose|w: int| 0 <= w < next.len() && next[w] == order[at];
        assert(order[skipping(at, w)] == order[at]);
    }
}

/// The links of one block of the list, after another one has been taken out.
proof fn lemma_relinked(b0: Seq<Block>, order: Seq<usize>, at: int, i: int)
    requires
        linked(b0, order),
        0 <= at < order.len(),
        0 <= i < order.len() - 1,
    ensures
        ({
            let next = order.remove(at);
            let e = relinked(b0, order, at, next[i] as int);
            &&& next[i] < b0.len()
            &&& e.prev == if i == 0 {
                None
            } else {
                Some(next[i - 1])
            }
            &&& e.next == if i == next.len() - 1 {
                None
            } else {
                Some(next[i + 1])
            }
        }),
{
    let next = order.remove(at);
    let n = order.len() as int;
    let p = skipping(at, i);
    assert(next[i] == order[p]);
    assert(link_ok(b0, order, at));
    assert(link_ok(b0, order, p));
    assert(order[p] != order[at]);
    if at + 1 < n && p != at + 1 {
        assert(order[p] != order[at + 1]);
    }
    if at > 0 && p != at - 1 {
        assert(order[p] != order[at - 1]);
    }
    if i > 0 {
        assert(next[i - 1] == order[skipping(at, i - 1)]);
    }
    if i < next.len() - 1 {
        assert(next[i + 1] == order[skipping(at, i + 1)]);
    }
}

/// The links after a block has been taken out.
proof fn lemma_unlinked(b0: Seq<Block>, b1: Seq<Block>, order: Seq<usize>, at: int)
    requires
        linked(b0, order),
        0 <= at < order.len(),
        b1.len() == b0.len() <= usize::MAX,
        forall|b: int|
            0 <= b < b0.len() ==> (#[trigger] b1[b]).allocation_list_entry == relinked(
                b0,
                order,
                at,
                b,
            ),
    ensures
        linked(b1, order.remove(at)),
{
    let next = order.remove(at);
    lemma_removed(order, at);
    assert forall|i: int| 0 <= i < next.len() implies #[trigger] link_ok(b1, next, i) by {
        lemma_relinked(b0, order, at, i);
        assert(b1[next[i] as int].allocation_list_entry == relinked(
            b0,
            order,
            at,
            next[i] as int,
        ));
    }
    assert forall|b: int| 0 <= b < b1.len() && !next.contains(b as usize) implies (
    #[trigger] b1[b]).allocation_list_entry == (AllocationListEntry { prev: None, next: None }) by {
        if b != order[at] {
            assert(!order.contains(b as usize));
            if at > 0 {
                assert(order.contains(order[at - 1]));
            }
            if at + 1 < order.len() {
                assert(order.contains(order[at + 1]));
            }
            assert(b0[b].allocation_list_entry == (AllocationListEntry {
                prev: None,
                next: None,
            }));
        }
    }
}

/// All blocks in use, by number.
pub struct ActiveArray {
    pub size: usize,
    pub blocks: Vec<usize>,
    pub refcount: i64,
}

impl ActiveArray {
    /// Every block knows its place.
    pub open spec fn wf(&self, blocks: Seq<Block>) -> bool {
        &&& self.blocks@.len() <= self.size
        &&& forall|i: int|
            0 <= i < self.blocks@.len() ==> (#[trigger] self.blocks@[i]) < blocks.len()
                && blocks[self.blocks@[i] as int].active_index == i
    }

    pub fn new(size: usize) -> (r: Self)
        ensures
            r.size == size,
            r.blocks@.len() == 0,
            r.refcount == 0,
    {
        ActiveArray { size, blocks: Vec::new(), refcount: 0 }
    }

    pub fn size(&self) -> (r: usize)
        ensures
            r == self.size,
    {
        self.size
    }

    pub fn block_count(&self) -> (r: usize)
        ensures
            r == self.blocks@.len(),
    {
        self.blocks.len()
    }

    pub fn increment_refcount(&mut self)
        requires
            0 <= old(self).refcount < i64::MAX,
        ensures
            *final(self) == (ActiveArray {
                refcount: (old(self).refcount + 1) as i64,
                ..*old(self)
            }),
    {
        self.refcount = self.refcount + 1;
    }

    /// Gives up a reference, and tells whether it was the last one.
    pub fn decrement_refcount(&mut self) -> (r: bool)
        requires
            0 < old(self).refcount,
        ensures
            *final(self) == (ActiveArray {
                refcount: (old(self).refcount - 1) as i64,
                ..*old(self)
            }),
            r == (final(self).refcount == 0),
    {
        self.refcount = self.refcount - 1;
        self.refcount == 0
    }

    /// Adds a block if there is room.
    pub fn push(&mut self, blocks: &mut Vec<Block>, block: usize) -> (r: bool)
        requires
            old(self).wf(old(blocks)@),
            block < old(blocks)@.len(),
            !old(self).blocks@.contains(block),
        ensures
            final(self).wf(final(blocks)@),
            r == (old(self).blocks@.len() < old(self).size),
            r ==> final(self).blocks@ == old(self).blocks@.push(block) && final(blocks)@ == old(blocks)@.update(
                block as int,
                Block {
                    active_index: old(self).blocks@.len() as usize,
                    ..old(blocks)@[block as int]
                },
            ),
            !r ==> *final(self) == *old(self) && final(blocks)@ == old(blocks)@,
            final(self).size == old(self).size,
            final(self).refcount == old(self).refcount,
    {
        let index: usize = self.block_count();
        if index < self.size {
            let ghost list = self.blocks@;
            let ghost b0 = blocks@;
            let mut b: Block = blocks[block];
            b.active_index = index;
            blocks.set(block, b);
            self.blocks.push(block);
            proof {
                assert forall|i: int| 0 <= i < self.blocks@.len() implies (
                #[trigger] self.blocks@[i]) < blocks@.len()
                    && blocks@[self.blocks@[i] as int].active_index == i by {
                    if i < list.len() {
                        assert(self.blocks@[i] == list[i]);
                        assert(list.contains(list[i]));
                    }
                }
            }
            true
        } else {
            false
        }
    }

    /// Removes a block. The last one takes its place.
    pub fn remove(&mut self, blocks: &mut Vec<Block>, block: usize)
        requires
            old(self).wf(old(blocks)@),
            block < old(blocks)@.len(),
            old(blocks)@[block as int].active_index < old(self).blocks@.len(),
            old(self).blocks@[old(blocks)@[block as int].active_index as int] == block,
        ensures
            final(self).wf(final(blocks)@),
            ({
                let at = old(blocks)@[block as int].active_index as int;
                let last = old(self).blocks@.last();
                &&& final(self).blocks@ == old(self).blocks@.update(at, last).drop_last()
                &&& final(blocks)@ == old(blocks)@.update(
                    last as int,
                    Block { active_index: at as usize, ..old(blocks)@[last as int] },
                )
            }),
            final(self).size == old(self).size,
            final(self).refcount == old(self).refcount,
    {
        let ghost list = self.blocks@;
        let ghost b0 = blocks@;
        let index: usize = blocks[block].active_index;
        let last_index: usize = self.block_count() - 1;
        let last_block: usize = self.blocks[last_index];
        let mut b: Block = blocks[last_block];
        b.active_index = index;
        blocks.set(last_block, b);
        self.blocks.set(index, last_block);
        let popped: Option<usize> = self.blocks.pop();
        proof {
            assert(self.blocks@ =~= list.update(index as int, last_block).drop_last());
            assert forall|i: int| 0 <= i < self.blocks@.len() implies (#[trigger] self.blocks@[i])
                < blocks@.len() && blocks@[self.blocks@[i] as int].active_index == i by {
                if i != index {
                    assert(self.blocks@[i] == list[i]);
                    assert(b0[list[i] as int].active_index == i);
                }
            }
        }
    }

    /// Takes over the blocks of another array.
    pub fn copy_from(&mut self, from: &Self)
        requires
            from.blocks@.len() <= old(self).size,
        ensures
            final(self).blocks@ == from.blocks@,
            final(self).size == old(self).size,
            final(self).refcount == old(self).refcount,
    {
        let mut copy: Vec<usize> = Vec::new();
        let mut i: usize = 0;
        while i < from.blocks.len()
            invariant
                i <= from.blocks@.len(),
                copy@ == from.blocks@.take(i as int),
            decreases from.blocks@.len() - i,
        {
            copy.push(from.blocks[i]);
            i = i + 1;
            assert(copy@ =~= from.blocks@.take(i as int));
        }
        assert(copy@ =~= from.blocks@);
        self.blocks = copy;
    }
}

/// A storage of references.
pub struct ObjStorage {
    pub blocks: Vec<Block>,
    pub active_array: ActiveArray,
    pub allocation_list: AllocationList,
    /// The blocks that have been put aside, the last one at the end.
    pub deferred_updates: Vec<usize>,
    pub allocation_count: usize,
}

/// Whether blocks have been put aside exactly if they say so.
pub open spec fn deferred_ok(blocks: Seq<Block>, deferred: Seq<usize>) -> bool {
    &&& forall|i: int, j: int| 0 <= i < j < deferred.len() ==> deferred[i] != deferred[j]
    &&& forall|i: int| 0 <= i < deferred.len() ==> (#[trigger] deferred[i]) < blocks.len()
    &&& forall|b: int|
        0 <= b < blocks.len() ==> ((#[trigger] blocks[b]).deferred <==> deferred.contains(
            b as usize,
        ))
}

/// Whether the list holds the blocks with unused entries. One that has been put aside need
/// not be there yet.
pub open spec fn list_ok(blocks: Seq<Block>, order: Seq<usize>) -> bool {
    forall|b: int|
        0 <= b < blocks.len() ==> {
            &&& full_mask((#[trigger] blocks[b]).allocated_bitmask) ==> !order.contains(b as usize)
            &&& !full_mask(blocks[b].allocated_bitmask) && !blocks[b].deferred ==> order.contains(
                b as usize,
            )
        }
}

/// The block that entries are taken from, and the blocks that stay put aside: the first
/// of the list; if the list is empty, the last of those put aside that has room; else a
/// new block.
pub open spec fn next_block(blocks: Seq<Block>, order: Seq<usize>, deferred: Seq<usize>) -> (
    int,
    Seq<usize>,
)
    decreases deferred.len(),
{
    if order.len() > 0 {
        (order[0] as int, deferred)
    } else if deferred.len() == 0 {
        (blocks.len() as int, deferred)
    } else if full_mask(blocks[deferred.last() as int].allocated_bitmask) {
        next_block(blocks, order, deferred.drop_last())
    } else {
        (deferred.last() as int, deferred.drop_last())
    }
}

/// The choice depends only on which entries are used.
proof fn lemma_next_block(a: Seq<Block>, b: Seq<Block>, order: Seq<usize>, deferred: Seq<usize>)
    requires
        a.len() == b.len(),
        forall|k: int|
            0 <= k < a.len() ==> (#[trigger] a[k]).allocated_bitmask == b[k].allocated_bitmask,
        forall|k: int| 0 <= k < deferred.len() ==> (#[trigger] deferred[k]) < a.len(),
    ensures
        next_block(a, order, deferred) == next_block(b, order, deferred),
    decreases deferred.len(),
{
    if order.len() == 0 && deferred.len() > 0 {
        let d = deferred.last() as int;
        assert(a[d].allocated_bitmask == b[d].allocated_bitmask);
        lemma_next_block(a, b, order, deferred.drop_last());
    }
}

/// The blocks that are put aside after entries of a block have been given back: that block
/// joins them, unless it is among them, if it was full or has no used entry left.
pub open spec fn put_aside(
    deferred: Seq<usize>,
    block: Block,
    id: usize,
    releasing: u64,
) -> Seq<usize> {
    if (releasing == block.allocated_bitmask || full_mask(block.allocated_bitmask))
        && !block.deferred {
        deferred.push(id)
    } else {
        deferred
    }
}

/// A block after entries of it have been given back.
pub open spec fn entries_released(block: Block, releasing: u64) -> Block {
    Block {
        allocated_bitmask: block.allocated_bitmask ^ releasing,
        deferred: block.deferred || releasing == block.allocated_bitmask || full_mask(
            block.allocated_bitmask,
        ),
        ..block
    }
}

/// The blocks, and those that are put aside, after the first `k` of some entries have been
/// given back one after the other.
pub open spec fn all_released(
    blocks: Seq<Block>,
    deferred: Seq<usize>,
    ptrs: Seq<(usize, usize)>,
    k: int,
) -> (Seq<Block>, Seq<usize>)
    decreases k,
{
    if k <= 0 {
        (blocks, deferred)
    } else {
        let (before, aside) = all_released(blocks, deferred, ptrs, k - 1);
        let (id, index) = ptrs[k - 1];
        let block = before[id as int];
        let mask = 1u64 << (index as u64);
        (
            before.update(id as int, entries_released(block, mask)),
            put_aside(aside, block, id, mask),
        )
    }
}

proof fn lemma_first_removed(storage: ObjStorage, o0: Seq<usize>, o1: Seq<usize>, block: usize)
    requires
        storage.wf(),
        o0 == storage.allocation_list@,
        o0.len() > 0,
        o0[0] == block,
        exists|i: int| 0 <= i < o0.len() && (#[trigger] o0[i]) == block && o1 == o0.remove(i),
    ensures
        o1 == o0.skip(1),
{
    storage.allocation_list.lemma_wf(storage.blocks@);
    let i = choose|i: int| 0 <= i < o0.len() && (#[trigger] o0[i]) == block && o1 == o0.remove(i);
    assert(o0[i] == o0[0]);
    assert(i == 0);
    assert(o0.remove(0) =~= o0.skip(1));
}

impl ObjStorage {
    /// Whether an entry is in use.
    pub open spec fn used(&self, b: int, i: int) -> bool {
        0 <= b < self.blocks@.len() && self.blocks@[b].used(i)
    }

    /// Whether the array of blocks is that of another storage, or has grown with one block
    /// more: by none if it had room, else to twice its size.
    pub open spec fn array_follows(&self, before: &Self) -> bool {
        let room = before.blocks@.len() < before.active_array.size;
        if self.blocks@.len() == before.blocks@.len() {
            self.active_array == before.active_array
        } else {
            &&& self.blocks@.len() == before.blocks@.len() + 1
            &&& self.active_array.size == if room {
                before.active_array.size as int
            } else {
                before.active_array.size * 2
            }
            &&& self.active_array.refcount == if room {
                before.active_array.refcount
            } else {
                1
            }
        }
    }

    /// Whether all entries of a block are in use.
    pub open spec fn all_used(&self, b: int) -> bool {
        forall|i: int| 0 <= i < 64 ==> #[trigger] self.used(b, i)
    }

    pub open spec fn wf(&self) -> bool {
        &&& self.allocation_list.wf(self.blocks@)
        &&& deferred_ok(self.blocks@, self.deferred_updates@)
        &&& list_ok(self.blocks@, self.allocation_list@)
        &&& self.active_array.wf(self.blocks@)
        &&& self.active_array.blocks@.len() == self.blocks@.len()
        &&& forall|k: int|
            0 <= k < self.blocks@.len() ==> (#[trigger] self.active_array.blocks@[k]) == k
        &&& 0 < self.active_array.size
    }

    pub fn new() -> (r: Self)
        ensures
            r.wf(),
            r.blocks@.len() == 0,
            r.active_array.size == 8,
            r.active_array.refcount == 1,
            r.allocation_count == 0,
            forall|b: int, i: int| !#[trigger] r.used(b, i),
    {
        let mut active_array = ActiveArray::new(8);
        active_array.increment_refcount();
        let blocks: Vec<Block> = Vec::new();
        assert(blocks@ =~= Seq::<Block>::empty());
        ObjStorage {
            blocks,
            active_array,
            allocation_list: AllocationList::new(),
            deferred_updates: Vec::new(),
            allocation_count: 0,
        }
    }

    /// Whether the entries of two storages are used alike.
    pub open spec fn same_use(&self, other: &Self) -> bool {
        forall|b: int, i: int| #[trigger] self.used(b, i) <==> other.used(b, i)
    }

    /// Makes room for more blocks.
    fn expand_active_array(&mut self)
        requires
            old(self).active_array.size * 2 <= usize::MAX,
            old(self).active_array.wf(old(self).blocks@),
        ensures
            final(self).active_array.size == old(self).active_array.size * 2,
            final(self).active_array.blocks@ == old(self).active_array.blocks@,
            final(self).active_array.refcount == 1,
            *final(self) == (ObjStorage { active_array: final(self).active_array, ..*old(self) }),
    {
        let new_size: usize = self.active_array.size() * 2;
        let mut new_array = ActiveArray::new(new_size);
        new_array.copy_from(&self.active_array);
        new_array.increment_refcount();
        self.active_array = new_array;
    }

    /// Adds a block without used entries, at the end of the list.
    fn try_add_block(&mut self)
        requires
            old(self).wf(),
            old(self).active_array.size * 2 <= usize::MAX,
            old(self).blocks@.len() < usize::MAX,
        ensures
            final(self).wf(),
            final(self).blocks@.len() == old(self).blocks@.len() + 1,
            final(self).allocation_list@ == old(self).allocation_list@.push(
                old(self).blocks@.len() as usize,
            ),
            final(self).deferred_updates@ == old(self).deferred_updates@,
            final(self).allocation_count == old(self).allocation_count,
            final(self).same_use(old(self)),
            final(self).array_follows(old(self)),
    {
        let ghost before = *self;
        let ghost b0 = self.blocks@;
        let id: usize = self.blocks.len();
        let block = Block::new();
        proof {
            self.allocation_list.lemma_more_blocks(b0, block);
        }
        self.blocks.push(block);
        proof {
            assert(!self.active_array.blocks@.contains(id)) by {
                if self.active_array.blocks@.contains(id) {
                    let k = choose|k: int|
                        0 <= k < self.active_array.blocks@.len() && self.active_array.blocks@[k]
                            == id;
                    assert(self.active_array.blocks@[k] == k);
                }
            }
            assert forall|i: int| 0 <= i < self.active_array.blocks@.len() implies (
            #[trigger] self.active_array.blocks@[i]) < self.blocks@.len()
                && self.blocks@[self.active_array.blocks@[i] as int].active_index == i by {
                assert(self.active_array.blocks@[i] < b0.len());
            }
        }
        if self.active_array.block_count() >= self.active_array.size() {
            self.expand_active_array();
        }
        let ghost b1 = self.blocks@;
        let pushed: bool = self.active_array.push(&mut self.blocks, id);
        let ghost b2 = self.blocks@;
        proof {
            self.allocation_list.lemma_same_links(b1, b2);
        }
        self.allocation_list.push_back(&mut self.blocks, id);
        proof {
            let b3 = self.blocks@;
            assert forall|b: int| 0 <= b < b0.len() implies (#[trigger] b3[b]).allocated_bitmask
                == b0[b].allocated_bitmask && b3[b].deferred == b0[b].deferred
                && b3[b].active_index == b0[b].active_index by {
                assert(b2[b] == b0[b]);
            }
            assert(b3[id as int].allocated_bitmask == 0 && !b3[id as int].deferred
                && b3[id as int].active_index == id);
            let order = before.allocation_list@;
            let more = self.allocation_list@;
            assert forall|b: int| 0 <= b < b3.len() implies {
                &&& full_mask((#[trigger] b3[b]).allocated_bitmask) ==> !more.contains(b as usize)
                &&& !full_mask(b3[b].allocated_bitmask) && !b3[b].deferred ==> more.contains(
                    b as usize,
                )
            } by {
                if b < b0.len() {
                    lemma_pushed_contains(order, id, b as usize);
                    assert(full_mask(b0[b].allocated_bitmask) ==> !order.contains(b as usize));
                } else {
                    assert(more[more.len() - 1] == id);
                }
            }
            assert forall|b: int| 0 <= b < b3.len() implies ((#[trigger] b3[b]).deferred
                <==> self.deferred_updates@.contains(b as usize)) by {
                if b < b0.len() {
                    assert(b0[b].deferred <==> before.deferred_updates@.contains(b as usize));
                } else if self.deferred_updates@.contains(id) {
                    let w = choose|w: int|
                        0 <= w < before.deferred_updates@.len() && before.deferred_updates@[w]
                            == id;
                    assert(before.deferred_updates@[w] < b0.len());
                }
            }
            assert forall|b: int, i: int| #[trigger] self.used(b, i) <==> before.used(b, i) by {
                if b == id {
                    assert(!block.used(i));
                }
            }
            assert forall|i: int| 0 <= i < self.active_array.blocks@.len() implies (
            #[trigger] self.active_array.blocks@[i]) < b3.len()
                && b3[self.active_array.blocks@[i] as int].active_index == i by {
                assert(b2[self.active_array.blocks@[i] as int].active_index == i);
            }
        }
    }

    /// Brings a block that has been put aside to its place in the list. Tells whether there
    /// was one.
    fn reduce_deferred_updates(&mut self) -> (r: bool)
        requires
            old(self).wf(),
        ensures
            final(self).wf(),
            r == (old(self).deferred_updates@.len() > 0),
            !r ==> *final(self) == *old(self),
            r ==> final(self).deferred_updates@ == old(self).deferred_updates@.drop_last(),
            r && old(self).allocation_list@.len() == 0 ==> {
                let d = old(self).deferred_updates@.last();
                final(self).allocation_list@ == if full_mask(
                    old(self).blocks@[d as int].allocated_bitmask,
                ) {
                    Seq::<usize>::empty()
                } else {
                    seq![d]
                }
            },
            final(self).blocks@.len() == old(self).blocks@.len(),
            forall|b: int|
                0 <= b < old(self).blocks@.len() ==> (
                #[trigger] final(self).blocks@[b]).allocated_bitmask == old(self).blocks@[b].allocated_bitmask,
            final(self).allocation_count == old(self).allocation_count,
            final(self).active_array == old(self).active_array,
            final(self).same_use(old(self)),
    {
        let ghost before = *self;
        let n: usize = self.deferred_updates.len();
        if n == 0 {
            return false;
        }
        let block: usize = self.deferred_updates[n - 1];
        let popped: Option<usize> = self.deferred_updates.pop();
        let ghost b0 = self.blocks@;
        let mut e: Block = self.blocks[block];
        e.deferred = false;
        self.blocks.set(block, e);
        let ghost b1 = self.blocks@;
        proof {
            self.allocation_list.lemma_same_links(b0, b1);
            let d0 = before.deferred_updates@;
            let d1 = self.deferred_updates@;
            assert(d1 =~= d0.drop_last());
            assert forall|b: int| 0 <= b < b1.len() implies ((#[trigger] b1[b]).deferred
                <==> d1.contains(b as usize)) by {
                assert(b0[b].deferred <==> d0.contains(b as usize));
                self.allocation_list.lemma_wf(b1);
                if d0.contains(b as usize) {
                    let w = choose|w: int| 0 <= w < d0.len() && d0[w] == b as usize;
                    if b != block {
                        assert(d1[w] == b as usize);
                    }
                }
                if d1.contains(b as usize) {
                    let w = choose|w: int| 0 <= w < d1.len() && d1[w] == b as usize;
                    assert(d0[w] == b as usize);
                    assert(d0[w] != d0[d0.len() - 1]);
                }
            }
        }
        let allocated: u64 = self.blocks[block].allocated_bitmask();
        if Block::is_full_bitmask(allocated) {
        } else if self.allocation_list.contains(&self.blocks, block) {
            if Block::is_empty_bitmask(allocated) {
                self.allocation_list.unlink(&mut self.blocks, block);
                self.allocation_list.push_back(&mut self.blocks, block);
            }
        } else if Block::is_empty_bitmask(allocated) {
            self.allocation_list.push_back(&mut self.blocks, block);
        } else {
            self.allocation_list.push_front(&mut self.blocks, block);
        }
        proof {
            let o0 = before.allocation_list@;
            let o1 = self.allocation_list@;
            let b2 = self.blocks@;
            self.allocation_list.lemma_wf(b2);
            if o0.len() == 0 {
                assert(!o0.contains(block));
                if full_mask(allocated) {
                    assert(o1 =~= Seq::<usize>::empty());
                } else {
                    assert(o1 =~= seq![block]);
                }
            }
            assert(same_but_links(b2, b1));
            assert forall|b: int| 0 <= b < b2.len() implies (#[trigger] b2[b]).allocated_bitmask
                == b0[b].allocated_bitmask && b2[b].active_index == b0[b].active_index
                && b2[b].deferred == b1[b].deferred by {
                assert(b2[b] == (Block {
                    allocation_list_entry: b2[b].allocation_list_entry,
                    ..b1[b]
                }));
            }
            assert forall|b: usize| b != block implies (#[trigger] o1.contains(b) <==> o0.contains(
                b,
            )) by {
                lemma_moved(o0, o1, block, b);
            }
            assert(!full_mask(allocated) ==> o1.contains(block)) by {
                if !full_mask(allocated) && !o0.contains(block) {
                    if allocated == 0 {
                        assert(o1[o1.len() - 1] == block);
                    } else {
                        assert(o1[0] == block);
                    }
                } else if !full_mask(allocated) && allocated == 0 {
                    assert(o1[o1.len() - 1] == block);
                }
            }
            assert forall|b: int| 0 <= b < b2.len() implies {
                &&& full_mask((#[trigger] b2[b]).allocated_bitmask) ==> !o1.contains(b as usize)
                &&& !full_mask(b2[b].allocated_bitmask) && !b2[b].deferred ==> o1.contains(
                    b as usize,
                )
            } by {
                assert(full_mask(b0[b].allocated_bitmask) ==> !o0.contains(b as usize));
                if b != block {
                    assert(b2[b].deferred == b0[b].deferred);
                    assert(o1.contains(b as usize) <==> o0.contains(b as usize));
                }
            }
            assert forall|b: int| 0 <= b < b2.len() implies ((#[trigger] b2[b]).deferred
                <==> self.deferred_updates@.contains(b as usize)) by {
                assert(b2[b].deferred == b1[b].deferred);
            }
            assert forall|b: int, i: int| #[trigger] self.used(b, i) <==> before.used(b, i) by {
                if 0 <= b < b2.len() {
                    assert(b2[b].allocated_bitmask == b0[b].allocated_bitmask);
                }
            }
            assert forall|i: int| 0 <= i < self.active_array.blocks@.len() implies (
            #[trigger] self.active_array.blocks@[i]) < b2.len()
                && b2[self.active_array.blocks@[i] as int].active_index == i by {
                let b = self.active_array.blocks@[i] as int;
                assert(b0[b].active_index == i);
                assert(b2[b].active_index == b0[b].active_index);
            }
        }
        true
    }

    /// A block with unused entries.
    fn block_for_allocation(&mut self) -> (r: usize)
        requires
            old(self).wf(),
            old(self).active_array.size * 2 <= usize::MAX,
            old(self).blocks@.len() < usize::MAX,
        ensures
            final(self).wf(),
            final(self).allocation_list@.len() > 0,
            final(self).allocation_list@[0] == r,
            r < final(self).blocks@.len(),
            !full_mask(final(self).blocks@[r as int].allocated_bitmask),
            final(self).same_use(old(self)),
            final(self).allocation_count == old(self).allocation_count,
            (r as int, final(self).deferred_updates@) == next_block(
                old(self).blocks@,
                old(self).allocation_list@,
                old(self).deferred_updates@,
            ),
            final(self).allocation_list@ == if old(self).allocation_list@.len() > 0 {
                old(self).allocation_list@
            } else {
                seq![r]
            },
            final(self).blocks@.len() == if r < old(self).blocks@.len() {
                old(self).blocks@.len()
            } else {
                old(self).blocks@.len() + 1
            },
            final(self).array_follows(old(self)),
    {
        let ghost before = *self;
        loop
            invariant
                self.active_array == before.active_array,
                self.wf(),
                before.active_array.size * 2 <= usize::MAX,
                self.blocks@.len() == before.blocks@.len(),
                before.blocks@.len() < usize::MAX,
                self.same_use(&before),
                before == *old(self),
                self.allocation_count == before.allocation_count,
                next_block(self.blocks@, self.allocation_list@, self.deferred_updates@)
                    == next_block(
                    before.blocks@,
                    before.allocation_list@,
                    before.deferred_updates@,
                ) || self.allocation_list@.len() > 0,
                before.allocation_list@.len() > 0 ==> *self == before,
                before.allocation_list@.len() == 0 && self.allocation_list@.len() > 0
                    ==> self.allocation_list@.len() == 1 && (
                    self.allocation_list@[0] as int,
                    self.deferred_updates@,
                ) == next_block(
                    before.blocks@,
                    before.allocation_list@,
                    before.deferred_updates@,
                ),
            decreases self.deferred_updates@.len(),
        {
            proof {
                self.allocation_list.lemma_wf(self.blocks@);
            }
            match self.allocation_list.head() {
                Some(b) => {
                    proof {
                        self.allocation_list.lemma_wf(self.blocks@);
                        let order = self.allocation_list@;
                        assert(link_ok(self.blocks@, order, 0));
                        assert(order.contains(order[0]));
                        assert(full_mask(self.blocks@[b as int].allocated_bitmask)
                            ==> !order.contains(b));
                        if before.allocation_list@.len() == 0 {
                            assert(order =~= seq![b]);
                        }
                    }
                    return b;
                },
                None => {
                    let ghost mid = *self;
                    if !self.reduce_deferred_updates() {
                        self.try_add_block();
                        proof {
                            self.allocation_list.lemma_wf(self.blocks@);
                            let order = self.allocation_list@;
                            assert(link_ok(self.blocks@, order, 0));
                            assert(order.contains(order[0]));
                            let b = order[0] as int;
                            assert(full_mask(self.blocks@[b].allocated_bitmask)
                                ==> !order.contains(b as usize));
                            assert(b == mid.blocks@.len());
                            assert(order =~= seq![order[0]]);
                            assert forall|b: int, i: int| #[trigger] self.used(b, i) <==> before.used(
                                b,
                                i,
                            ) by {
                                assert(mid.used(b, i) <==> before.used(b, i));
                            }
                        }
                        return self.blocks.len() - 1;
                    }
                    proof {
                        let left = self.deferred_updates@;
                        assert forall|k: int| 0 <= k < left.len() implies (#[trigger] left[k])
                            < mid.blocks@.len() by {
                            assert(mid.deferred_updates@[k] < mid.blocks@.len());
                        }
                        lemma_next_block(
                            self.blocks@,
                            mid.blocks@,
                            self.allocation_list@,
                            left,
                        );
                        if self.allocation_list@.len() == 0 {
                            assert(self.allocation_list@ =~= mid.allocation_list@);
                        }
                        assert forall|b: int, i: int| #[trigger] self.used(b, i) <==> before.used(
                            b,
                            i,
                        ) by {
                            assert(mid.used(b, i) <==> before.used(b, i));
                        }
                    }
                },
            }
        }
    }

    /// The block that the next entries are taken from, and the blocks that stay put aside.
    pub open spec fn next(&self) -> (int, Seq<usize>) {
        next_block(self.blocks@, self.allocation_list@, self.deferred_updates@)
    }

    /// The list with the block that the next entries are taken from.
    pub open spec fn next_list(&self) -> Seq<usize> {
        if self.allocation_list@.len() > 0 {
            self.allocation_list@
        } else {
            seq![self.next().0 as usize]
        }
    }

    /// Takes the first unused entry of the block whose turn it is, and returns its block
    /// and its index. A block that is full leaves the list.
    pub fn allocate(&mut self) -> (r: (usize, usize))
        requires
            old(self).wf(),
            old(self).active_array.size * 2 <= usize::MAX,
            old(self).blocks@.len() < usize::MAX,
            old(self).allocation_count < usize::MAX,
        ensures
            final(self).wf(),
            r.0 == old(self).next().0,
            r.1 < 64,
            !old(self).used(r.0 as int, r.1 as int),
            forall|i: int| 0 <= i < r.1 ==> #[trigger] old(self).used(r.0 as int, i),
            forall|b: int, i: int| #[trigger]
                final(self).used(b, i) <==> old(self).used(b, i) || (b == r.0 && i == r.1),
            final(self).allocation_count == old(self).allocation_count + 1,
            final(self).blocks@.len() == if r.0 < old(self).blocks@.len() {
                old(self).blocks@.len()
            } else {
                old(self).blocks@.len() + 1
            },
            final(self).array_follows(old(self)),
            final(self).deferred_updates@ == old(self).next().1,
            final(self).allocation_list@ == if full_mask(
                final(self).blocks@[r.0 as int].allocated_bitmask,
            ) {
                old(self).next_list().skip(1)
            } else {
                old(self).next_list()
            },
    {
        let ghost before = *self;
        let block: usize = self.block_for_allocation();
        let ghost mid = *self;
        let ghost b0 = self.blocks@;
        let mut e: Block = self.blocks[block];
        let ghost e0 = e;
        let index: usize = e.allocate();
        self.blocks.set(block, e);
        let ghost b1 = self.blocks@;
        self.allocation_count = self.allocation_count + 1;
        proof {
            self.allocation_list.lemma_same_links(b0, b1);
        }
        if self.blocks[block].is_full() {
            proof {
                assert(self.allocation_list@.contains(self.allocation_list@[0]));
            }
            self.allocation_list.unlink(&mut self.blocks, block);
        }
        proof {
            let o0 = mid.allocation_list@;
            let o1 = self.allocation_list@;
            let b2 = self.blocks@;
            self.allocation_list.lemma_wf(b2);
            assert(o0.contains(o0[0]));
            assert(same_but_links(b2, b1));
            assert forall|b: int| 0 <= b < b2.len() implies (#[trigger] b2[b]).deferred
                == b0[b].deferred && b2[b].active_index == b0[b].active_index && (b != block
                ==> b2[b].allocated_bitmask == b0[b].allocated_bitmask) by {
                assert(b2[b] == (Block {
                    allocation_list_entry: b2[b].allocation_list_entry,
                    ..b1[b]
                }));
            }
            assert(b2[block as int].allocated_bitmask == b1[block as int].allocated_bitmask);
            lemma_kept(mid, *self, block);
            assert forall|b: int, i: int| #[trigger] self.used(b, i) <==> before.used(b, i) || (b
                == block && i == index) by {
                assert(mid.used(b, i) <==> before.used(b, i));
                if 0 <= b < b2.len() {
                    assert(b2[b].allocated_bitmask == b1[b].allocated_bitmask);
                    if b == block {
                        assert(e.used(i) <==> e0.used(i) || i == index);
                    }
                }
            }
            assert(mid.used(block as int, index as int) <==> before.used(
                block as int,
                index as int,
            ));
            assert(!e0.used(index as int));
            assert forall|i: int| 0 <= i < index implies #[trigger] before.used(
                block as int,
                i,
            ) by {
                assert(e0.used(i));
                assert(mid.used(block as int, i) <==> before.used(block as int, i));
            }
            assert(o0 == before.next_list());
            if full_mask(b2[block as int].allocated_bitmask) {
                lemma_first_removed(mid, o0, o1, block);
            }
        }
        (block, index)
    }

    /// Gives entries of a block back.
    fn release_entries(&mut self, block: usize, releasing: u64)
        requires
            old(self).wf(),
            block < old(self).blocks@.len(),
            releasing != 0,
            forall|i: int|
                0 <= i < 64 && #[trigger] bit64(releasing, i) ==> old(self).used(block as int, i),
        ensures
            final(self).wf(),
            final(self).blocks@.len() == old(self).blocks@.len(),
            forall|b: int, i: int| #[trigger]
                final(self).used(b, i) <==> old(self).used(b, i) && !(b == block && bit64(
                    releasing,
                    i,
                )),
            final(self).allocation_count == old(self).allocation_count,
            final(self).allocation_list@ == old(self).allocation_list@,
            final(self).deferred_updates@ == put_aside(
                old(self).deferred_updates@,
                old(self).blocks@[block as int],
                block,
                releasing,
            ),
            final(self).active_array == old(self).active_array,
            final(self).blocks@ == old(self).blocks@.update(
                block as int,
                entries_released(old(self).blocks@[block as int], releasing),
            ),
    {
        let ghost before = *self;
        let ghost b0 = self.blocks@;
        let ghost d0 = self.deferred_updates@;
        let mut e: Block = self.blocks[block];
        let old_allocated: u64 = e.allocated_bitmask;
        e.allocated_bitmask = old_allocated ^ releasing;
        let ghost was = e.deferred;
        if releasing == old_allocated || Block::is_full_bitmask(old_allocated) {
            if !e.deferred {
                e.deferred = true;
                self.deferred_updates.push(block);
            }
        }
        self.blocks.set(block, e);
        proof {
            let b1 = self.blocks@;
            let d1 = self.deferred_updates@;
            let order = self.allocation_list@;
            self.allocation_list.lemma_same_links(b0, b1);
            self.allocation_list.lemma_wf(b1);
            assert(b0[block as int].deferred <==> d0.contains(block));
            assert forall|i: int, j: int| 0 <= i < j < d1.len() implies d1[i] != d1[j] by {
                if j == d0.len() {
                    assert(d0.contains(d0[i]));
                }
            }
            assert forall|b: int| 0 <= b < b1.len() implies ((#[trigger] b1[b]).deferred
                <==> d1.contains(b as usize)) by {
                assert(b0[b].deferred <==> d0.contains(b as usize));
                if d1.len() > d0.len() {
                    lemma_pushed_contains(d0, block, b as usize);
                }
            }
            assert forall|i: int| 0 <= i < 64 implies (#[trigger] bit64(
                old_allocated ^ releasing,
                i,
            ) <==> bit64(old_allocated, i) && !bit64(releasing, i)) by {
                lemma_xor_bits(old_allocated, releasing, i as u64);
                if bit64(releasing, i) {
                    assert(before.used(block as int, i));
                }
            }
            assert(!full_mask(e.allocated_bitmask)) by {
                lemma_full(e.allocated_bitmask);
                vstd::std_specs::bits::axiom_u64_trailing_zeros(releasing);
                let z = vstd::std_specs::bits::u64_trailing_zeros(releasing);
                assert(bit64(releasing, z as int));
                assert(!bit64(e.allocated_bitmask, z as int));
            }
            assert forall|b: int| 0 <= b < b1.len() implies {
                &&& full_mask((#[trigger] b1[b]).allocated_bitmask) ==> !order.contains(b as usize)
                &&& !full_mask(b1[b].allocated_bitmask) && !b1[b].deferred ==> order.contains(
                    b as usize,
                )
            } by {
                assert(full_mask(b0[b].allocated_bitmask) ==> !order.contains(b as usize));
                assert(!full_mask(b0[b].allocated_bitmask) && !b0[b].deferred ==> order.contains(
                    b as usize,
                ));
            }
            assert forall|b: int, i: int| #[trigger] self.used(b, i) <==> before.used(b, i) && !(b
                == block && bit64(releasing, i)) by {}
            assert forall|i: int| 0 <= i < self.active_array.blocks@.len() implies (
            #[trigger] self.active_array.blocks@[i]) < b1.len()
                && b1[self.active_array.blocks@[i] as int].active_index == i by {
                assert(b0[self.active_array.blocks@[i] as int].active_index == i);
            }
        }
    }

    /// Gives an entry back.
    pub fn release(&mut self, block: usize, index: usize)
        requires
            old(self).wf(),
            old(self).used(block as int, index as int),
            old(self).allocation_count > 0,
        ensures
            final(self).wf(),
            forall|b: int, i: int| #[trigger]
                final(self).used(b, i) <==> old(self).used(b, i) && !(b == block && i == index),
            final(self).allocation_count == old(self).allocation_count - 1,
            final(self).blocks@.len() == old(self).blocks@.len(),
            final(self).active_array == old(self).active_array,
            final(self).allocation_list@ == old(self).allocation_list@,
            final(self).deferred_updates@ == put_aside(
                old(self).deferred_updates@,
                old(self).blocks@[block as int],
                block,
                1u64 << (index as u64),
            ),
            final(self).blocks@ == old(self).blocks@.update(
                block as int,
                entries_released(old(self).blocks@[block as int], 1u64 << (index as u64)),
            ),
    {
        let mask: u64 = self.blocks[block].bitmask_for_index(index);
        proof {
            lemma_masks(0, index as u64, index as u64);
        }
        let ghost before = *self;
        self.release_entries(block, mask);
        let ghost released = *self;
        self.allocation_count = self.allocation_count - 1;
        proof {
            assert forall|b: int, i: int| #[trigger] self.used(b, i) <==> before.used(b, i) && !(b
                == block && i == index) by {
                assert(self.used(b, i) == released.used(b, i));
                if 0 <= i < 64 {
                    assert(bit64(mask, i) <==> i == index);
                }
            }
        }
    }

    /// Gives entries back, one after the other.
    pub fn releasen(&mut self, ptrs: &Vec<(usize, usize)>)
        requires
            old(self).wf(),
            ptrs@.len() <= old(self).allocation_count,
            forall|k: int|
                0 <= k < ptrs@.len() ==> old(self).used(
                    (#[trigger] ptrs@[k]).0 as int,
                    ptrs@[k].1 as int,
                ),
            forall|j: int, k: int| 0 <= j < k < ptrs@.len() ==> ptrs@[j] != ptrs@[k],
        ensures
            final(self).wf(),
            forall|b: int, i: int| #[trigger]
                final(self).used(b, i) <==> old(self).used(b, i) && !is_among(ptrs@, b, i),
            final(self).allocation_count == old(self).allocation_count - ptrs@.len(),
            final(self).active_array == old(self).active_array,
            final(self).allocation_list@ == old(self).allocation_list@,
            (final(self).blocks@, final(self).deferred_updates@) == all_released(
                old(self).blocks@,
                old(self).deferred_updates@,
                ptrs@,
                ptrs@.len() as int,
            ),
    {
        let ghost before = *self;
        let mut k: usize = 0;
        while k < ptrs.len()
            invariant
                k <= ptrs@.len(),
                self.wf(),
                ptrs@.len() <= before.allocation_count,
                self.allocation_count == before.allocation_count - k,
                self.active_array == before.active_array,
                self.allocation_list@ == before.allocation_list@,
                (self.blocks@, self.deferred_updates@) == all_released(
                    before.blocks@,
                    before.deferred_updates@,
                    ptrs@,
                    k as int,
                ),
                forall|k: int|
                    0 <= k < ptrs@.len() ==> before.used(
                        (#[trigger] ptrs@[k]).0 as int,
                        ptrs@[k].1 as int,
                    ),
                forall|j: int, k: int| 0 <= j < k < ptrs@.len() ==> ptrs@[j] != ptrs@[k],
                forall|b: int, i: int| #[trigger]
                    self.used(b, i) <==> before.used(b, i) && !is_among(
                        ptrs@.take(k as int),
                        b,
                        i,
                    ),
            decreases ptrs@.len() - k,
        {
            let (b, i): (usize, usize) = ptrs[k];
            let ghost mid = *self;
            let ghost less = ptrs@.take(k as int);
            let ghost more = ptrs@.take(k + 1);
            proof {
                assert(before.used(ptrs@[k as int].0 as int, ptrs@[k as int].1 as int));
                assert(!is_among(less, b as int, i as int)) by {
                    if is_among(less, b as int, i as int) {
                        let w = choose|w: int|
                            0 <= w < less.len() && (#[trigger] less[w]).0 == b && less[w].1 == i;
                        assert(ptrs@[w] != ptrs@[k as int]);
                    }
                }
            }
            self.release(b, i);
            proof {
                assert forall|c: int, j: int| #[trigger] self.used(c, j) <==> before.used(c, j)
                    && !is_among(more, c, j) by {
                    assert(mid.used(c, j) <==> before.used(c, j) && !is_among(less, c, j));
                    if is_among(less, c, j) {
                        let w = choose|w: int|
                            0 <= w < less.len() && (#[trigger] less[w]).0 == c && less[w].1 == j;
                        assert(more[w].0 == c && more[w].1 == j);
                    }
                    if c == b && j == i {
                        assert(more[k as int].0 == c && more[k as int].1 == j);
                    }
                    if is_among(more, c, j) && !(c == b && j == i) {
                        let w = choose|w: int|
                            0 <= w < more.len() && (#[trigger] more[w]).0 == c && more[w].1 == j;
                        assert(less[w].0 == c && less[w].1 == j);
                    }
                }
            }
            k = k + 1;
        }
        assert(ptrs@.take(k as int) =~= ptrs@);
    }

    /// Takes up to `size` unused entries of one block, and returns that block and the
    /// indices, in order.
    pub fn allocaten(&mut self, size: usize) -> (r: (usize, Vec<usize>))
        requires
            old(self).wf(),
            old(self).active_array.size * 2 <= usize::MAX,
            old(self).blocks@.len() < usize::MAX,
            old(self).allocation_count + 64 <= usize::MAX,
            size > 0,
        ensures
            final(self).wf(),
            r.0 == old(self).next().0,
            0 < r.1@.len() <= size,
            r.1@.len() <= 64,
            forall|i: int|
                0 <= i < r.1@.last() ==> #[trigger] final(self).used(r.0 as int, i),
            final(self).allocation_list@ == old(self).next_list().skip(1),
            final(self).deferred_updates@ == if old(self).next().1.contains(r.0) || final(self).all_used(
                r.0 as int,
            ) {
                old(self).next().1
            } else {
                old(self).next().1.push(r.0)
            },
            forall|a: int, b: int| 0 <= a < b < r.1@.len() ==> r.1@[a] < r.1@[b],
            forall|k: int|
                0 <= k < r.1@.len() ==> !old(self).used(r.0 as int, (#[trigger] r.1@[k]) as int)
                    && r.1@[k] < 64,
            r.1@.len() < size ==> final(self).all_used(r.0 as int),
            forall|b: int, i: int| #[trigger]
                final(self).used(b, i) <==> old(self).used(b, i) || (b == r.0 && 0 <= i < 64
                    && r.1@.contains(i as usize)),
            final(self).allocation_count == old(self).allocation_count + r.1@.len(),
            final(self).blocks@.len() == if r.0 < old(self).blocks@.len() {
                old(self).blocks@.len()
            } else {
                old(self).blocks@.len() + 1
            },
            final(self).array_follows(old(self)),
    {
        let ghost before = *self;
        let block: usize = self.block_for_allocation();
        let ghost mid = *self;
        let ghost b0 = self.blocks@;
        proof {
            self.allocation_list.lemma_wf(b0);
            assert(self.allocation_list@.contains(self.allocation_list@[0]));
        }
        self.allocation_list.unlink(&mut self.blocks, block);
        let ghost b1 = self.blocks@;
        let mut e: Block = self.blocks[block];
        let ghost e0 = e;
        let all: u64 = e.allocate_all();
        self.blocks.set(block, e);
        let ghost b2 = self.blocks@;
        proof {
            self.allocation_list.lemma_same_links(b1, b2);
            assert(e0.allocated_bitmask == b0[block as int].allocated_bitmask);
            lemma_masks(e0.allocated_bitmask, 0, 0);
            let o0 = mid.allocation_list@;
            let o1 = self.allocation_list@;
            assert forall|b: int| 0 <= b < b2.len() implies (#[trigger] b2[b]).deferred
                == b0[b].deferred && b2[b].active_index == b0[b].active_index && (b != block
                ==> b2[b].allocated_bitmask == b0[b].allocated_bitmask) by {
                assert(b1[b] == (Block {
                    allocation_list_entry: b1[b].allocation_list_entry,
                    ..b0[b]
                }));
            }
            lemma_kept(mid, *self, block);
        }
        let (out, rest): (Vec<usize>, u64) = split_bits(all, size);
        let ghost full = *self;
        proof {
            assert forall|b: int, i: int| #[trigger] full.used(b, i) <==> before.used(b, i) || (b
                == block && 0 <= i < 64) by {
                assert(mid.used(b, i) <==> before.used(b, i));
                if 0 <= b < b2.len() {
                    if b == block && 0 <= i < 64 {
                        lemma_masks(0, 0, i as u64);
                    }
                    assert(b1[b].allocated_bitmask == b0[b].allocated_bitmask);
                }
            }
            assert forall|i: int| 0 <= i < 64 implies (#[trigger] bit64(all, i) <==> !before.used(
                block as int,
                i,
            )) by {
                assert(mid.used(block as int, i) <==> before.used(block as int, i));
                assert(e0.used(i) <==> mid.used(block as int, i));
            }
        }
        if rest != 0 {
            proof {
                assert forall|i: int| 0 <= i < 64 && #[trigger] bit64(rest, i) implies self.used(
                    block as int,
                    i,
                ) by {
                    lemma_masks(0, 0, i as u64);
                }
            }
            self.release_entries(block, rest);
        }
        let ghost released = *self;
        self.allocation_count = self.allocation_count + out.len();
        proof {
            assert(b0[block as int].deferred <==> mid.deferred_updates@.contains(block));
            if rest != 0 {
                vstd::std_specs::bits::axiom_u64_trailing_zeros(rest);
                let z = vstd::std_specs::bits::u64_trailing_zeros(rest) as int;
                assert(bit64(rest, z));
                assert(!released.used(block as int, z));
                assert(!self.used(block as int, z));
                assert(b1[block as int].deferred == b0[block as int].deferred);
                assert(self.deferred_updates@ == put_aside(mid.deferred_updates@, e, block, rest));
            } else {
                assert forall|i: int| 0 <= i < 64 implies #[trigger] self.used(block as int, i) by {
                    assert(full.used(block as int, i));
                    assert(self.used(block as int, i) == released.used(block as int, i));
                }
            }
            assert(self.all_used(block as int) <==> rest == 0);
            assert forall|b: int, i: int| #[trigger] self.used(b, i) <==> before.used(b, i) || (b
                == block && 0 <= i < 64 && out@.contains(i as usize)) by {
                assert(self.used(b, i) == released.used(b, i));
                assert(full.used(b, i) <==> before.used(b, i) || (b == block && 0 <= i < 64));
                if b == block && 0 <= i < 64 {
                    lemma_masks(0, 0, i as u64);
                    assert(bit64(rest, i) <==> bit64(all, i) && !out@.contains(i as usize));
                    assert(bit64(all, i) <==> !before.used(b, i));
                    if out@.contains(i as usize) {
                        let w = choose|w: int| 0 <= w < out@.len() && out@[w] == i as usize;
                        assert(bit64(all, out@[w] as int));
                    }
                }
            }
            assert forall|k: int| 0 <= k < out@.len() implies !before.used(
                block as int,
                (#[trigger] out@[k]) as int,
            ) && out@[k] < 64 by {
                assert(bit64(all, out@[k] as int));
            }
            assert forall|i: int| 0 <= i < out@.last() implies #[trigger] self.used(
                block as int,
                i,
            ) by {
                lemma_masks(0, 0, i as u64);
                assert(full.used(block as int, i));
                assert(self.used(block as int, i) == released.used(block as int, i));
                assert(!bit64(rest, i));
            }
            if out@.len() < size {
                assert forall|i: int| 0 <= i < 64 implies #[trigger] self.used(block as int, i) by {
                    lemma_masks(0, 0, i as u64);
                    assert(full.used(block as int, i));
                    assert(self.used(block as int, i) == released.used(block as int, i));
                }
            }
        }
        (block, out)
    }
}

/// Takes up to `size` bits of a bitmask, the lowest ones, and returns their indices and the
/// others.
fn split_bits(all: u64, size: usize) -> (r: (Vec<usize>, u64))
    ensures
        r.0@.len() <= size,
        r.0@.len() <= 64,
        forall|a: int, b: int| 0 <= a < b < r.0@.len() ==> r.0@[a] < r.0@[b],
        forall|k: int|
            0 <= k < r.0@.len() ==> (#[trigger] r.0@[k]) < 64 && bit64(all, r.0@[k] as int),
        forall|j: int|
            0 <= j < 64 ==> (#[trigger] bit64(r.1, j) <==> bit64(all, j) && !r.0@.contains(
                j as usize,
            )),
        all != 0 && size > 0 ==> r.0@.len() > 0,
        r.0@.len() < size ==> r.1 == 0,
        r.0@.len() > 0 ==> forall|j: int| 0 <= j < 64 && #[trigger] bit64(r.1, j) ==> j > r.0@.last(),
{
    let mut taken: u64 = all;
    let mut out: Vec<usize> = Vec::new();
    let ghost mut done: int = 0;
    while out.len() < size && taken != 0
        invariant
            0 <= done <= 64,
            out@.len() <= done,
            out@.len() > 0 ==> out@.last() < done,
            out@.len() <= size,
            out@.len() == 0 ==> taken == all,
            forall|j: int|
                0 <= j < 64 ==> (#[trigger] bit64(taken, j) <==> j >= done && bit64(all, j)),
            forall|k: int|
                0 <= k < out@.len() ==> (#[trigger] out@[k]) < done && bit64(
                    all,
                    out@[k] as int,
                ),
            forall|i: int|
                0 <= i < done && #[trigger] bit64(all, i) ==> out@.contains(i as usize),
            forall|a: int, b: int| 0 <= a < b < out@.len() ==> out@[a] < out@[b],
        decreases 64 - done,
    {
        let index: u32 = taken.trailing_zeros();
        let ghost t0 = taken;
        let ghost out0 = out@;
        proof {
            vstd::std_specs::bits::axiom_u64_trailing_zeros(taken);
            assert(bit64(taken, index as int));
        }
        taken = taken ^ (1u64 << (index as u64));
        out.push(index as usize);
        proof {
            assert forall|j: int| 0 <= j < 64 implies (#[trigger] bit64(taken, j) <==> j
                >= index + 1 && bit64(all, j)) by {
                lemma_masks(t0, index as u64, j as u64);
                if j < index {
                    assert((t0 >> (j as u64)) & 1u64 == 0u64);
                    assert(!bit64(t0, j));
                } else {
                    assert(bit64(t0, j) <==> bit64(all, j));
                }
            }
            assert forall|i: int| 0 <= i < index + 1 && #[trigger] bit64(
                all,
                i,
            ) implies out@.contains(i as usize) by {
                if i < done {
                    let w = choose|w: int| 0 <= w < out0.len() && out0[w] == i as usize;
                    assert(out@[w] == i as usize);
                } else if i < index {
                    assert((t0 >> (i as u64)) & 1u64 == 0u64);
                    assert(bit64(t0, i));
                } else {
                    assert(out@[out@.len() - 1] == i as usize);
                }
            }
            done = index + 1;
        }
    }
    proof {
        assert forall|j: int| 0 <= j < 64 implies (#[trigger] bit64(taken, j) <==> bit64(all, j)
            && !out@.contains(j as usize)) by {
            if out@.contains(j as usize) {
                let w = choose|w: int| 0 <= w < out@.len() && out@[w] == j as usize;
                assert(out@[w] < done);
            }
        }
    }
    (out, taken)
}

/// A storage stays in order when the bitmask of one block changes, and the list with it.
proof fn lemma_kept(mid: ObjStorage, now: ObjStorage, block: usize)
    requires
        mid.wf(),
        block < mid.blocks@.len(),
        now.blocks@.len() == mid.blocks@.len(),
        now.allocation_list.wf(now.blocks@),
        now.deferred_updates@ == mid.deferred_updates@,
        now.active_array == mid.active_array,
        forall|b: int|
            0 <= b < now.blocks@.len() ==> (#[trigger] now.blocks@[b]).deferred
                == mid.blocks@[b].deferred && now.blocks@[b].active_index
                == mid.blocks@[b].active_index && (b != block ==> now.blocks@[b].allocated_bitmask
                == mid.blocks@[b].allocated_bitmask),
        forall|b: usize|
            b != block ==> (#[trigger] now.allocation_list@.contains(b)
                <==> mid.allocation_list@.contains(b)),
        full_mask(now.blocks@[block as int].allocated_bitmask)
            <==> !now.allocation_list@.contains(block),
    ensures
        now.wf(),
{
    now.allocation_list.lemma_wf(now.blocks@);
    let b0 = mid.blocks@;
    let b1 = now.blocks@;
    assert forall|b: int| 0 <= b < b1.len() implies {
        &&& full_mask((#[trigger] b1[b]).allocated_bitmask) ==> !now.allocation_list@.contains(
            b as usize,
        )
        &&& !full_mask(b1[b].allocated_bitmask) && !b1[b].deferred
            ==> now.allocation_list@.contains(b as usize)
    } by {
        if b != block {
            assert(full_mask(b0[b].allocated_bitmask) ==> !mid.allocation_list@.contains(
                b as usize,
            ));
        }
    }
    assert forall|b: int| 0 <= b < b1.len() implies ((#[trigger] b1[b]).deferred
        <==> now.deferred_updates@.contains(b as usize)) by {
        assert(b0[b].deferred <==> mid.deferred_updates@.contains(b as usize));
    }
    assert forall|i: int| 0 <= i < now.active_array.blocks@.len() implies (
    #[trigger] now.active_array.blocks@[i]) < b1.len()
        && b1[now.active_array.blocks@[i] as int].active_index == i by {
        assert(b0[now.active_array.blocks@[i] as int].active_index == i);
    }
}

/// Whether an entry is in a list.
pub open spec fn is_among(list: Seq<(usize, usize)>, b: int, i: int) -> bool {
    exists|k: int| 0 <= k < list.len() && (#[trigger] list[k]).0 == b && list[k].1 == i
}

proof fn lemma_pushed_contains(s: Seq<usize>, x: usize, b: usize)
    ensures
        s.push(x).contains(b) <==> s.contains(b) || b == x,
{
    let t = s.push(x);
    if s.contains(b) {
        let w = choose|w: int| 0 <= w < s.len() && s[w] == b;
        assert(t[w] == b);
    }
    if b == x {
        assert(t[s.len() as int] == b);
    }
    if t.contains(b) && b != x {
        let w = choose|w: int| 0 <= w < t.len() && t[w] == b;
        assert(s[w] == b);
    }
}

proof fn lemma_front_contains(s: Seq<usize>, x: usize, b: usize)
    ensures
        (seq![x] + s).contains(b) <==> s.contains(b) || b == x,
{
    let t = seq![x] + s;
    if s.contains(b) {
        let w = choose|w: int| 0 <= w < s.len() && s[w] == b;
        assert(t[w + 1] == b);
    }
    if b == x {
        assert(t[0] == b);
    }
    if t.contains(b) && b != x {
        let w = choose|w: int| 0 <= w < t.len() && t[w] == b;
        assert(s[w - 1] == b);
    }
}

/// A list in which a block may have been moved or added holds the others as before.
proof fn lemma_moved(o0: Seq<usize>, o1: Seq<usize>, block: usize, b: usize)
    requires
        b != block,
        o1 == o0 || o1 == o0.push(block) || o1 == seq![block] + o0 || exists|o: Seq<usize>|
            (forall|c: usize| c != block ==> (#[trigger] o.contains(c) <==> o0.contains(c))) && o1
                == #[trigger] o.push(block),
    ensures
        o1.contains(b) <==> o0.contains(b),
{
    if o1 == o0 {
    } else if o1 == o0.push(block) {
        lemma_pushed_contains(o0, block, b);
    } else if o1 == seq![block] + o0 {
        lemma_front_contains(o0, block, b);
    } else {
        let o = choose|o: Seq<usize>|
            (forall|c: usize| c != block ==> (#[trigger] o.contains(c) <==> o0.contains(c))) && o1
                == #[trigger] o.push(block);
        lemma_pushed_contains(o, block, b);
        assert(o.contains(b) <==> o0.contains(b));
    }
}

} // verus!
