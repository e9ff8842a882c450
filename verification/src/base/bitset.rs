//! A set of small numbers.

use vstd::prelude::*;

verus! {

pub const BITS_PER_WORD: usize = 64;

/// A set of the numbers below `N`.
pub struct BitSet<const N: usize> {
    data: Vec<u64>,
}

/// Whether a bit of a word is set.
pub open spec fn bit64(w: u64, j: int) -> bool {
    (w >> (j as u64)) & 1 == 1
}

/// The numbers that words stand for.
pub open spec fn members(data: Seq<u64>) -> Set<int> {
    Set::new(|i: int| 0 <= i < 64 * data.len() && bit64(data[i / 64], i % 64))
}

proof fn lemma_word(w: u64, i: u64, j: u64)
    by (bit_vector)
    requires
        i < 64,
        j < 64,
    ensures
        ((w | (1u64 << i)) >> j) & 1 == 1 <==> i == j || (w >> j) & 1 == 1,
        ((w & !(1u64 << i)) >> j) & 1 == 1 <==> i != j && (w >> j) & 1 == 1,
        ((w ^ (1u64 << i)) >> j) & 1 == 1 <==> (i == j) != ((w >> j) & 1 == 1),
        (w & (1u64 << i) != 0) <==> (w >> i) & 1 == 1,
        ((w & (0xffff_ffff_ffff_ffffu64 << i)) >> j) & 1 == 1 <==> i <= j && (w >> j) & 1 == 1,
        (0u64 >> j) & 1 == 0,
{
}

/// The smallest member at or above a number, if there is one.
pub open spec fn is_next(s: Set<int>, i: int, r: int) -> bool {
    ||| r == -1 && forall|k: int| i <= k ==> !#[trigger] s.contains(k)
    ||| i <= r && s.contains(r) && forall|k: int| i <= k < r ==> !#[trigger] s.contains(k)
}

/// The greatest member below a number, if there is one.
pub open spec fn is_last(s: Set<int>, top: int, r: int) -> bool {
    ||| r == -1 && forall|k: int| k < top ==> !#[trigger] s.contains(k)
    ||| 0 <= r < top && s.contains(r) && forall|k: int|
        r < k < top ==> !#[trigger] s.contains(k)
}

impl<const N: usize> BitSet<N> {
    pub closed spec fn words(&self) -> Seq<u64> {
        self.data@
    }

    pub open spec fn view(&self) -> Set<int> {
        members(self.words())
    }

    /// There are words for all numbers below `N`.
    pub open spec fn wf(&self) -> bool {
        &&& 0 < N
        &&& self.words().len() == 1 + (N - 1) / 64
        &&& 64 * self.words().len() <= isize::MAX
    }

    pub fn new() -> (r: Self)
        requires
            0 < N,
            N + 64 <= isize::MAX,
        ensures
            r.wf(),
            r@ == Set::<int>::empty(),
    {
        let r = BitSet { data: vec![0u64; 1 + (N - 1) / BITS_PER_WORD] };
        proof {
            assert forall|i: int| !r@.contains(i) by {
                if 0 <= i < 64 * r.data@.len() {
                    lemma_word(0, 0, (i % 64) as u64);
                }
            }
            assert(r@ =~= Set::<int>::empty());
        }
        r
    }

    pub fn reset(&mut self)
        requires
            old(self).wf(),
        ensures
            final(self).wf(),
            final(self)@ == Set::<int>::empty(),
    {
        let n: usize = self.data.len();
        self.data = vec![0u64; n];
        proof {
            assert forall|i: int| !self@.contains(i) by {
                if 0 <= i < 64 * self.data@.len() {
                    lemma_word(0, 0, (i % 64) as u64);
                }
            }
            assert(self@ =~= Set::<int>::empty());
        }
    }

    pub fn size(&self) -> (r: usize)
        ensures
            r == N,
    {
        N
    }

    /// The greatest member of the words up to `word`, or -1.
    fn last_from(&self, word: usize) -> (r: isize)
        requires
            self.wf(),
            word < self.words().len(),
        ensures
            is_last(self@, 64 * (word + 1), r as int),
    {
        let mut w: usize = word;
        let ghost top = 64 * (w + 1);
        loop
            invariant
                self.wf(),
                top == 64 * (word + 1),
                w < self.data@.len(),
                64 * (w + 1) <= top,
                forall|k: int| 64 * (w + 1) <= k < top ==> !#[trigger] self@.contains(k),
            decreases w,
        {
            let d: u64 = self.data[w];
            if d != 0 {
                let z: u32 = d.leading_zeros();
                proof {
                    vstd::std_specs::bits::axiom_u64_leading_zeros(d);
                    let r = 64 * w + 63 - z;
                    assert(r / 64 == w && r % 64 == 63 - z);
                    lemma_low(d >> ((63 - z) as u64));
                    assert((d >> ((63 - z) as u64)) & 1u64 != 0);
                    assert(bit64(d, 63 - z));
                    assert forall|k: int| r < k < top implies !#[trigger] self@.contains(k) by {
                        if k < 64 * (w + 1) {
                            let j = (k % 64) as u64;
                            assert(k / 64 == w && 64 - z <= j < 64);
                            assert((d >> j) & 1 == 0);
                        }
                    }
                }
                return (w * BITS_PER_WORD + 63 - z as usize) as isize;
            }
            proof {
                assert forall|k: int| 64 * w <= k < top implies !#[trigger] self@.contains(k) by {
                    if k < 64 * (w + 1) {
                        assert(k / 64 == w);
                        lemma_word(0, 0, (k % 64) as u64);
                    }
                }
            }
            if w == 0 {
                return -1;
            }
            w = w - 1;
        }
    }

    /// Removes the greatest member, and returns the one before it, or -1.
    pub fn clear_last_and_find_previous(&mut self, current_last: isize) -> (r: isize)
        requires
            old(self).wf(),
            0 <= current_last < 64 * old(self).words().len(),
            old(self)@.contains(current_last as int),
            forall|k: int| #[trigger] old(self)@.contains(k) ==> k <= current_last,
        ensures
            final(self).wf(),
            final(self)@ == old(self)@.remove(current_last as int),
            is_last(final(self)@, current_last as int, r as int),
    {
        let i: usize = current_last as usize;
        let ghost before = self.data@;
        let w: usize = i / BITS_PER_WORD;
        let b: usize = i % BITS_PER_WORD;
        let bits: u64 = self.data[w] ^ (1u64 << (b as u64));
        self.data.set(w, bits);
        proof {
            assert forall|k: int| #[trigger] self@.contains(k) <==> members(before).contains(k) && k
                != i by {
                if 0 <= k < 64 * before.len() && k / 64 == w {
                    lemma_word(before[w as int], b as u64, (k % 64) as u64);
                    lemma_word(before[w as int], b as u64, b as u64);
                }
            }
            assert(self@ =~= members(before).remove(i as int));
        }
        let r: isize = self.last_from(w);
        proof {
            if r != -1 {
                assert(members(before).contains(r as int));
            }
        }
        r
    }

    /// The greatest member, or -1.
    pub fn last(&self) -> (r: isize)
        requires
            self.wf(),
        ensures
            is_last(self@, 64 * self.words().len() as int, r as int),
    {
        self.last_from(self.data.len() - 1)
    }

    /// The smallest member at or above `from`, or -1.
    pub fn next(&self, from: isize) -> (r: isize)
        requires
            self.wf(),
            0 <= from < 64 * self.words().len(),
        ensures
            is_next(self@, from as int, r as int),
    {
        let i: usize = from as usize;
        let mut w: usize = i / BITS_PER_WORD;
        let b: usize = i % BITS_PER_WORD;
        let mut d: u64 = self.data[w] & (0xffff_ffff_ffff_ffffu64 << (b as u64));
        let ghost word = self.data@[w as int];
        let ghost mut lo = i as int;
        proof {
            assert forall|j: int| b <= j < 64 implies bit64(d, j) == bit64(word, j) by {
                lemma_word(word, b as u64, j as u64);
            }
            assert forall|j: int| 0 <= j < b implies !bit64(d, j) by {
                lemma_word(word, b as u64, j as u64);
            }
        }
        loop
            invariant
                self.wf(),
                i == from,
                w < self.data@.len(),
                i <= lo,
                64 * w <= lo < 64 * (w + 1),
                forall|k: int| i <= k < lo ==> !#[trigger] self@.contains(k),
                forall|j: int|
                    lo % 64 <= j < 64 ==> #[trigger] bit64(d, j) == bit64(self.data@[w as int], j),
                forall|j: int| 0 <= j < lo % 64 ==> !#[trigger] bit64(d, j),
            decreases self.data@.len() - w,
        {
            if d != 0 {
                let z: u32 = d.trailing_zeros();
                proof {
                    vstd::std_specs::bits::axiom_u64_trailing_zeros(d);
                    let r = 64 * w + z;
                    assert(r / 64 == w && r % 64 == z);
                    assert(bit64(d, z as int));
                    if z < lo % 64 {
                        assert(!bit64(d, z as int));
                    }
                    assert forall|k: int| i <= k < r implies !#[trigger] self@.contains(k) by {
                        if k >= lo {
                            let j = (k % 64) as u64;
                            assert(k / 64 == w && lo % 64 <= j < z);
                            assert((d >> j) & 1 == 0);
                            assert(!bit64(d, j as int));
                        }
                    }
                }
                return (w * BITS_PER_WORD + z as usize) as isize;
            }
            proof {
                assert forall|k: int| i <= k < 64 * (w + 1) implies !#[trigger] self@.contains(k) by {
                    if k >= lo {
                        assert(k / 64 == w);
                        let j = k % 64;
                        lemma_word(0, 0, j as u64);
                        assert(!bit64(d, j));
                    }
                }
            }
            w = w + 1;
            if w >= self.data.len() {
                return -1;
            }
            d = self.data[w];
            proof {
                lo = 64 * w as int;
            }
        }
    }

    pub fn test(&self, i: isize) -> (r: bool)
        requires
            self.wf(),
            0 <= i < 64 * self.words().len(),
        ensures
            r == self@.contains(i as int),
    {
        let i: usize = i as usize;
        let w: usize = i / BITS_PER_WORD;
        let b: usize = i % BITS_PER_WORD;
        proof {
            lemma_word(self.data@[w as int], b as u64, b as u64);
        }
        (self.data[w] & (1u64 << (b as u64))) != 0
    }

    pub fn set(&mut self, i: isize, value: bool)
        requires
            old(self).wf(),
            0 <= i < 64 * old(self).words().len(),
        ensures
            final(self).wf(),
            final(self)@ == if value {
                old(self)@.insert(i as int)
            } else {
                old(self)@.remove(i as int)
            },
    {
        let i: usize = i as usize;
        let ghost before = self.data@;
        let w: usize = i / BITS_PER_WORD;
        let b: usize = i % BITS_PER_WORD;
        let mask: u64 = 1u64 << (b as u64);
        let word: u64 = self.data[w];
        if value {
            self.data.set(w, word | mask);
        } else {
            self.data.set(w, word & !mask);
        }
        proof {
            assert forall|k: int| #[trigger] self@.contains(k) <==> if k == i {
                value
            } else {
                members(before).contains(k)
            } by {
                if 0 <= k < 64 * before.len() && k / 64 == w {
                    lemma_word(before[w as int], b as u64, (k % 64) as u64);
                }
            }
            if value {
                assert(self@ =~= members(before).insert(i as int));
            } else {
                assert(self@ =~= members(before).remove(i as int));
            }
        }
    }
}

proof fn lemma_low(x: u64)
    by (bit_vector)
    ensures
        x & 1 == 0 || x & 1 == 1,
{
}

} // verus!
