//! Two bits for every place of a heap: one for strong marks, and one for weak ones.

use vstd::prelude::*;

use crate::base::bitset::bit64;
use crate::base::virtual_memory::MemoryRegion;

verus! {

pub const LOG_BITS_PER_WORD: usize = 3;

pub const BITS_PER_WORD: usize = 64;

pub const LOG_MIN_OBJECT_ALIGNMENT: usize = 4;

/// The marks of a heap. Bit `b` is a bit of word `b / 8`.
pub struct MarkBitmap {
    map: Vec<u64>,
    size: usize,
    covered: MemoryRegion,
}

proof fn lemma_bits(w: u64, i: u64, j: u64)
    by (bit_vector)
    requires
        i < 64,
        j < 64,
    ensures
        ((w | (1u64 << i)) >> j) & 1 == 1 <==> i == j || (w >> j) & 1 == 1,
        (w & (1u64 << i) != 0) <==> (w >> i) & 1 == 1,
        ((w | (1u64 << i)) == w) <==> (w >> i) & 1 == 1,
        (0u64 >> j) & 1 == 0,
{
}

proof fn lemma_shift(x: usize)
    by (bit_vector)
    ensures
        x >> 3usize == x / 8,
        x & 63 == x % 64,
        x >> 4usize == x / 16,
        x >> 1usize == x / 2,
{
}

impl MarkBitmap {
    pub const SMALL_RANGE_WORDS: usize = 32;

    pub closed spec fn words(&self) -> Seq<u64> {
        self.map@
    }

    pub closed spec fn bits(&self) -> int {
        self.size as int
    }

    pub closed spec fn heap(&self) -> MemoryRegion {
        self.covered
    }

    /// Every bit has its word.
    pub open spec fn wf(&self) -> bool {
        &&& self.heap().wf()
        &&& self.bits() + 64 <= usize::MAX
        &&& self.words().len() >= self.bits() / 8 + 1
    }

    /// Whether a bit is set.
    pub open spec fn is_set(&self, b: int) -> bool {
        bit64(self.words()[b / 8], b % 64)
    }

    /// The bit of an address.
    pub open spec fn index_of(&self, addr: int) -> int {
        (addr - self.heap().start) / 8 * 2 / 16
    }

    pub fn raw_to_words_align_down(bit: usize) -> (r: usize)
        ensures
            r == bit as int / 8,
    {
        proof {
            lemma_shift(bit);
        }
        bit >> LOG_BITS_PER_WORD
    }

    pub fn raw_to_words_align_up(bit: usize) -> (r: usize)
        requires
            bit + 63 <= usize::MAX,
        ensures
            r == (bit + 63) / 8,
    {
        Self::raw_to_words_align_down(bit + (BITS_PER_WORD - 1))
    }

    pub fn to_words_align_up(&self, bit: usize) -> (r: usize)
        requires
            self.wf(),
            bit <= self.bits(),
        ensures
            r == (bit + 63) / 8,
    {
        Self::raw_to_words_align_up(bit)
    }

    pub fn to_words_align_down(&self, bit: usize) -> (r: usize)
        requires
            bit <= self.bits(),
        ensures
            r == bit as int / 8,
    {
        Self::raw_to_words_align_down(bit)
    }

    pub fn bit_in_word(bit: usize) -> (r: usize)
        ensures
            r == bit as int % 64,
    {
        proof {
            lemma_shift(bit);
        }
        bit & (BITS_PER_WORD - 1)
    }

    pub fn bit_mask(bit: usize) -> (r: u64)
        ensures
            r == 1u64 << ((bit % 64) as u64),
    {
        1u64 << (Self::bit_in_word(bit) as u64)
    }

    pub fn bit_index(word: usize) -> (r: usize)
        requires
            word * 8 <= usize::MAX,
        ensures
            r == word * 8,
    {
        proof {
            vstd::arithmetic::power2::lemma2_to64();
            vstd::bits::lemma_usize_shl_is_mul(word, 3);
        }
        word << LOG_BITS_PER_WORD
    }

    /// The number of bytes that the marks of a heap take.
    pub fn compute_size(heap_size: usize) -> (r: usize)
        ensures
            r % 16 == 0,
            heap_size as int / 64 <= r < heap_size as int / 64 + 16,
    {
        proof {
            vstd::arithmetic::power2::lemma2_to64();
            assert(16 == vstd::arithmetic::power2::pow2(4));
            assert(crate::bits::is_power_of_two(16));
        }
        super::align_up(heap_size / Self::mark_distance(), 16)
    }

    /// The number of bytes of a heap that share a byte of marks.
    pub fn mark_distance() -> (r: usize)
        ensures
            r == 64,
    {
        64
    }

    /// The marks of a heap without any. There are two for every place.
    pub fn new(heap: MemoryRegion) -> (r: Self)
        requires
            heap.wf(),
            heap.size as int / 8 * 2 / 16 + 64 <= usize::MAX,
            heap.size as int / 8 * 2 <= usize::MAX,
        ensures
            r.wf(),
            r.heap() == heap,
            r.bits() == heap.size as int / 8 * 2 / 16,
            forall|b: int| 0 <= b <= r.bits() ==> !#[trigger] r.is_set(b),
    {
        let n: usize = heap.size / 8 * 2;
        proof {
            lemma_shift(n);
        }
        let size: usize = n >> LOG_MIN_OBJECT_ALIGNMENT;
        let r = MarkBitmap { map: vec![0u64; size / 8 + 1], size, covered: heap };
        proof {
            assert forall|b: int| 0 <= b <= r.bits() implies !#[trigger] r.is_set(b) by {
                lemma_bits(0, 0, (b % 64) as u64);
            }
        }
        r
    }

    /// Whether a bit is set.
    pub fn at(&self, index: usize) -> (r: bool)
        requires
            self.wf(),
            index < self.bits(),
        ensures
            r == self.is_set(index as int),
    {
        let w: u64 = self.map[Self::raw_to_words_align_down(index)];
        proof {
            lemma_bits(w, (index % 64) as u64, 0);
        }
        (w & Self::bit_mask(index)) != 0
    }

    pub fn address_to_index(&self, addr: usize) -> (r: usize)
        requires
            self.heap().start <= addr,
            (addr - self.heap().start) / 8 * 2 <= usize::MAX,
        ensures
            r == self.index_of(addr as int),
    {
        let n: usize = (addr - self.covered.start) / 8 * 2;
        proof {
            lemma_shift(n);
        }
        n >> LOG_MIN_OBJECT_ALIGNMENT
    }

    pub fn index_to_address(&self, index: usize) -> (r: usize)
        requires
            self.heap().start + index as int / 2 * 16 <= usize::MAX,
        ensures
            r == self.heap().start + index as int / 2 * 16,
    {
        self.covered.start + index / 2 * 16
    }

    /// Whether an address has both bits.
    pub open spec fn has_bits(&self, addr: int) -> bool {
        &&& self.heap().start <= addr
        &&& (addr - self.heap().start) / 8 * 2 <= usize::MAX
        &&& self.index_of(addr) + 1 < self.bits()
    }

    /// Marks a place strongly. Tells whether it was not, and whether it was marked weakly.
    pub fn mark_strong(&mut self, heap_addr: usize) -> (r: (bool, bool))
        requires
            old(self).wf(),
            old(self).has_bits(heap_addr as int),
            old(self).index_of(heap_addr as int) % 64 < 63,
        ensures
            final(self).wf(),
            final(self).heap() == old(self).heap(),
            final(self).bits() == old(self).bits(),
            ({
                let b = old(self).index_of(heap_addr as int);
                let w = old(self).words()[b / 8];
                &&& r.0 == !old(self).is_set(b)
                &&& r.1 == (r.0 && bit64(w, b % 64 + 1))
                &&& final(self).words() == old(self).words().update(
                    b / 8,
                    w | (1u64 << ((b % 64) as u64)),
                )
                &&& final(self).is_set(b)
            }),
    {
        let bit: usize = self.address_to_index(heap_addr);
        let at: usize = Self::raw_to_words_align_down(bit);
        let j: usize = Self::bit_in_word(bit);
        let mask: u64 = Self::bit_mask(bit);
        let mask_weak: u64 = 1u64 << ((j + 1) as u64);
        let old_val: u64 = self.map[at];
        let new_val: u64 = old_val | mask;
        proof {
            lemma_bits(old_val, j as u64, j as u64);
            lemma_bits(old_val, (j + 1) as u64, j as u64);
        }
        if new_val == old_val {
            assert(self.map@.update(at as int, new_val) =~= self.map@);
            return (false, false);
        }
        self.map.set(at, new_val);
        (true, (old_val & mask_weak) != 0)
    }

    /// Marks a place weakly, unless it is marked strongly. Tells whether that changed
    /// something. The strong bit is set with the weak one.
    pub fn mark_weak(&mut self, heap_addr: usize) -> (r: bool)
        requires
            old(self).wf(),
            old(self).has_bits(heap_addr as int),
            old(self).index_of(heap_addr as int) % 64 < 63,
        ensures
            final(self).wf(),
            final(self).heap() == old(self).heap(),
            final(self).bits() == old(self).bits(),
            ({
                let b = old(self).index_of(heap_addr as int);
                let w = old(self).words()[b / 8];
                &&& r == !old(self).is_set(b)
                &&& final(self).words() == if r {
                    old(self).words().update(
                        b / 8,
                        w | ((1u64 << ((b % 64) as u64)) | (1u64 << ((b % 64 + 1) as u64))),
                    )
                } else {
                    old(self).words()
                }
            }),
    {
        let bit: usize = self.address_to_index(heap_addr);
        let at: usize = Self::raw_to_words_align_down(bit);
        let j: usize = Self::bit_in_word(bit);
        let mask_strong: u64 = Self::bit_mask(bit);
        let mask: u64 = mask_strong | (1u64 << ((j + 1) as u64));
        let old_val: u64 = self.map[at];
        proof {
            lemma_bits(old_val, j as u64, j as u64);
            lemma_weak(old_val, j as u64);
        }
        if (old_val & mask_strong) != 0 {
            return false;
        }
        let new_val: u64 = old_val | mask;
        if new_val == old_val {
            return false;
        }
        self.map.set(at, new_val);
        true
    }

    pub fn is_marked_strong(&self, heap_addr: usize) -> (r: bool)
        requires
            self.wf(),
            self.has_bits(heap_addr as int),
        ensures
            r == self.is_set(self.index_of(heap_addr as int)),
    {
        self.at(self.address_to_index(heap_addr))
    }

    pub fn is_marked_weak(&self, heap_addr: usize) -> (r: bool)
        requires
            self.wf(),
            self.has_bits(heap_addr as int),
        ensures
            r == self.is_set(self.index_of(heap_addr as int) + 1),
    {
        self.at(self.address_to_index(heap_addr) + 1)
    }

    /// Whether any of the words between the places of two addresses has a mark. The
    /// places are counted in words here.
    pub fn is_marked_strong_range(&self, begin: usize, end: usize) -> (r: bool)
        requires
            self.wf(),
            self.heap().start <= begin <= end,
            (end - self.heap().start) / 8 * 2 <= usize::MAX,
            self.index_of(end as int) <= self.words().len(),
        ensures
            r == exists|k: int|
                self.index_of(begin as int) <= k < self.index_of(end as int)
                    && #[trigger] self.words()[k] != 0,
    {
        let start_index: usize = self.address_to_index(begin);
        let end_index: usize = self.address_to_index(end);
        let mut k: usize = start_index;
        while k < end_index
            invariant
                start_index <= k,
                start_index == self.index_of(begin as int),
                end_index == self.index_of(end as int),
                end_index <= self.words().len(),
                forall|j: int| start_index <= j < k ==> #[trigger] self.words()[j] == 0,
            decreases end_index - k,
        {
            if self.map[k] != 0 {
                assert(self.words()[k as int] != 0);
                return true;
            }
            k = k + 1;
        }
        false
    }

    /// Forgets all marks.
    pub fn clear(&mut self)
        requires
            old(self).wf(),
        ensures
            final(self).wf(),
            final(self).heap() == old(self).heap(),
            final(self).bits() == old(self).bits(),
            forall|b: int| 0 <= b <= final(self).bits() ==> !#[trigger] final(self).is_set(b),
    {
        let n: usize = self.map.len();
        self.map = vec![0u64; n];
        proof {
            assert forall|b: int| 0 <= b <= self.bits() implies !#[trigger] self.is_set(b) by {
                lemma_bits(0, 0, (b % 64) as u64);
            }
        }
    }
}

proof fn lemma_weak(w: u64, j: u64)
    by (bit_vector)
    requires
        j < 63,
    ensures
        (w & (1u64 << j)) == 0 ==> (w | ((1u64 << j) | (1u64 << ((j + 1) as u64)))) != w,
{
}

} // verus!
