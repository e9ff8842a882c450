//! Facts about bits, and bit sets stored in byte cells.
//!
//! A sequence of byte cells stands for a set of slot numbers: slot `n` is bit
//! `n % 8` of cell `n / 8`.

use vstd::arithmetic::power2::{lemma_pow2_pos, lemma_pow2_strictly_increases, pow2};
use vstd::bits::{lemma_usize_low_bits_mask_is_mod, lemma_usize_pow2_no_overflow, low_bits_mask};
use vstd::prelude::*;

verus! {

/// Whether bit `i` of a byte is set.
pub open spec fn bit8(b: u8, i: u8) -> bool {
    (b >> i) & 1u8 == 1u8
}

/// Whether bit `i` of a 64-bit word is set.
pub open spec fn bit64(w: u64, i: u64) -> bool {
    (w >> i) & 1u64 == 1u64
}

/// Whether `n` is a power of two.
pub open spec fn is_power_of_two(n: int) -> bool {
    exists|k: nat| n == #[trigger] pow2(k)
}

/// Single-bit updates and tests of a byte.
pub proof fn lemma_bit8(b: u8, i: u8, j: u8)
    by (bit_vector)
    requires
        i < 8,
        j < 8,
    ensures
        ((b | (1u8 << i)) >> j) & 1u8 == 1u8 <==> (i == j || (b >> j) & 1u8 == 1u8),
        ((b & !(1u8 << i)) >> j) & 1u8 == 1u8 <==> (i != j && (b >> j) & 1u8 == 1u8),
        ((b ^ (1u8 << i)) >> j) & 1u8 == 1u8 <==> ((i == j) != ((b >> j) & 1u8 == 1u8)),
        (b & (1u8 << i)) != 0 <==> (b >> i) & 1u8 == 1u8,
        (b & (1u8 << i)) == (1u8 << i) <==> (b >> i) & 1u8 == 1u8,
        (0u8 >> j) & 1u8 == 0u8,
        (!b >> j) & 1u8 == 1u8 <==> (b >> j) & 1u8 == 0u8,
        (b >> j) & 1u8 == 0u8 || (b >> j) & 1u8 == 1u8,
        (b | (1u8 << i)) == b <==> (b >> i) & 1u8 == 1u8,
        (1u8 << i) >= 1u8,
{
}

/// Masks that keep the low or the high bits of a byte.
pub proof fn lemma_mask8(b: u8, c: u8, i: u8, j: u8)
    by (bit_vector)
    requires
        i < 8,
        j < 8,
    ensures
        ((b & (((1u8 << i) - 1) as u8)) >> j) & 1u8 == 1u8 <==> (j < i && (b >> j) & 1u8 == 1u8),
        ((b & !(((1u8 << i) - 1) as u8)) >> j) & 1u8 == 1u8 <==> (j >= i && (b >> j) & 1u8 == 1u8),
        ((b & c) >> j) & 1u8 == 1u8 <==> ((b >> j) & 1u8 == 1u8 && (c >> j) & 1u8 == 1u8),
        ((b | c) >> j) & 1u8 == 1u8 <==> ((b >> j) & 1u8 == 1u8 || (c >> j) & 1u8 == 1u8),
{
}

/// A byte is zero exactly when none of its bits is set.
pub proof fn lemma_zero8(b: u8)
    by (bit_vector)
    ensures
        b == 0 <==> (b & 1 == 0 && (b >> 1) & 1 == 0 && (b >> 2) & 1 == 0 && (b >> 3) & 1 == 0 && (
        b >> 4) & 1 == 0 && (b >> 5) & 1 == 0 && (b >> 6) & 1 == 0 && (b >> 7) & 1 == 0),
        b >> 0 == b,
{
}

/// A byte without set bits is zero.
pub proof fn lemma_no_bits8(b: u8)
    requires
        forall|j: u8| j < 8 ==> !bit8(b, j),
    ensures
        b == 0,
{
    lemma_zero8(b);
    assert forall|j: u8| j < 8 implies (b >> j) & 1u8 == 0u8 by {
        assert(!bit8(b, j));
        lemma_bit8(b, 0, j);
    }
    assert((b >> 0u8) & 1u8 == 0u8);
    assert((b >> 1u8) & 1u8 == 0u8);
    assert((b >> 2u8) & 1u8 == 0u8);
    assert((b >> 3u8) & 1u8 == 0u8);
    assert((b >> 4u8) & 1u8 == 0u8);
    assert((b >> 5u8) & 1u8 == 0u8);
    assert((b >> 6u8) & 1u8 == 0u8);
    assert((b >> 7u8) & 1u8 == 0u8);
}

/// A zero byte has no set bits.
pub proof fn lemma_zero_bits8(j: u8)
    requires
        j < 8,
    ensures
        !bit8(0, j),
{
    lemma_bit8(0, 0, j);
}

/// A non-zero byte has a set bit.
pub proof fn lemma_some_bit8(b: u8)
    requires
        b != 0,
    ensures
        exists|j: u8| j < 8 && bit8(b, j),
{
    if forall|j: u8| j < 8 ==> !bit8(b, j) {
        lemma_no_bits8(b);
    }
}

/// Splitting a word by a mask: the masked part and the rest add up.
proof fn lemma_mask_split(x: usize, m: usize)
    by (bit_vector)
    ensures
        (x & m) + (x & !m) == x,
{
}

/// Masking with a power of two minus one takes the remainder, and masking
/// with the complement rounds down.
pub proof fn lemma_align_mask(x: usize, align: usize)
    requires
        is_power_of_two(align as int),
    ensures
        align > 0,
        x & ((align - 1) as usize) == x % align,
        x & !((align - 1) as usize) == x - x % align,
{
    let k = choose|k: nat| align as int == #[trigger] pow2(k);
    lemma_pow2_pos(k);
    if k >= usize::BITS {
        lemma_usize_pow2_no_overflow((usize::BITS - 1) as nat);
        if k > usize::BITS {
            lemma_pow2_strictly_increases(usize::BITS as nat, k);
        }
        assert(pow2(32) == 0x1_0000_0000 && pow2(64) == 0x1_0000_0000_0000_0000) by {
            vstd::arithmetic::power2::lemma2_to64();
        }
        assert(pow2(k) > usize::MAX);
        assert(false);
    }
    lemma_usize_low_bits_mask_is_mod(x, k);
    assert(low_bits_mask(k) as usize == (align - 1) as usize);
    lemma_mask_split(x, (align - 1) as usize);
}

/// Whether slot `n` of the cells is set.
pub open spec fn cell_bit(cells: Seq<u8>, n: int) -> bool {
    0 <= n < 8 * cells.len() && bit8(cells[n / 8], (n % 8) as u8)
}

/// The set of slots that are set.
pub open spec fn set_slots(cells: Seq<u8>) -> Set<int> {
    Set::new(|n: int| cell_bit(cells, n))
}

/// The members of `s` in `lo..hi`, in ascending order.
pub open spec fn ascending(s: Set<int>, lo: int, hi: int) -> Seq<int>
    decreases hi - lo,
{
    if lo >= hi {
        Seq::empty()
    } else if s.contains(hi - 1) {
        ascending(s, lo, hi - 1).push(hi - 1)
    } else {
        ascending(s, lo, hi - 1)
    }
}

/// `ascending` lists exactly the members in range, each once, in order.
pub proof fn lemma_ascending(s: Set<int>, lo: int, hi: int)
    ensures
        forall|n: int| #[trigger]
            ascending(s, lo, hi).contains(n) <==> (lo <= n < hi && s.contains(n)),
        forall|i: int, j: int|
            0 <= i < j < ascending(s, lo, hi).len() ==> ascending(s, lo, hi)[i] < ascending(
                s,
                lo,
                hi,
            )[j],
        ascending(s, lo, hi).len() <= (if hi > lo { hi - lo } else { 0 }),
    decreases hi - lo,
{
    if lo < hi {
        lemma_ascending(s, lo, hi - 1);
        let prev = ascending(s, lo, hi - 1);
        let cur = ascending(s, lo, hi);
        if s.contains(hi - 1) {
            assert forall|n: int| #[trigger]
                cur.contains(n) <==> (lo <= n < hi && s.contains(n)) by {
                if cur.contains(n) {
                    let i = choose|i: int| 0 <= i < cur.len() && cur[i] == n;
                    if i < prev.len() {
                        assert(prev[i] == n);
                        assert(prev.contains(n));
                    }
                }
                if lo <= n < hi && s.contains(n) {
                    if n == hi - 1 {
                        assert(cur[cur.len() - 1] == n);
                    } else {
                        assert(prev.contains(n));
                        let i = choose|i: int| 0 <= i < prev.len() && prev[i] == n;
                        assert(cur[i] == n);
                    }
                }
            }
            assert forall|i: int, j: int| 0 <= i < j < cur.len() implies cur[i] < cur[j] by {
                if j == cur.len() - 1 {
                    assert(prev.contains(prev[i]));
                }
            }
        }
    }
}

/// A gap without members adds nothing to `ascending`.
pub proof fn lemma_ascending_gap(s: Set<int>, lo: int, mid: int, hi: int)
    requires
        lo <= mid <= hi,
        forall|n: int| mid <= n < hi ==> !s.contains(n),
    ensures
        ascending(s, lo, hi) == ascending(s, lo, mid),
    decreases hi - mid,
{
    if mid < hi {
        lemma_ascending_gap(s, lo, mid, hi - 1);
    }
}

/// `ascending` depends only on the members in range.
pub proof fn lemma_ascending_agree(s: Set<int>, t: Set<int>, lo: int, hi: int)
    requires
        forall|n: int| lo <= n < hi ==> (s.contains(n) <==> t.contains(n)),
    ensures
        ascending(s, lo, hi) == ascending(t, lo, hi),
    decreases hi - lo,
{
    if lo < hi {
        lemma_ascending_agree(s, t, lo, hi - 1);
    }
}

/// `ascending` over two adjacent ranges is the concatenation.
pub proof fn lemma_ascending_split(s: Set<int>, lo: int, mid: int, hi: int)
    requires
        lo <= mid <= hi,
    ensures
        ascending(s, lo, hi) == ascending(s, lo, mid) + ascending(s, mid, hi),
    decreases hi - mid,
{
    if mid < hi {
        lemma_ascending_split(s, lo, mid, hi - 1);
        if s.contains(hi - 1) {
            assert(ascending(s, lo, mid) + ascending(s, mid, hi) =~= (ascending(s, lo, mid)
                + ascending(s, mid, hi - 1)).push(hi - 1));
        }
    } else {
        assert(ascending(s, lo, mid) + ascending(s, mid, hi) =~= ascending(s, lo, mid));
    }
}

/// The number of set bits among the first `k` bits of a byte.
pub open spec fn ones8(b: u8, k: nat) -> nat
    decreases k,
{
    if k == 0 {
        0
    } else {
        ones8(b, (k - 1) as nat) + (if bit8(b, (k - 1) as u8) {
            1nat
        } else {
            0
        })
    }
}

/// The number of set bits in all cells.
pub open spec fn ones_in_cells(cells: Seq<u8>) -> nat
    decreases cells.len(),
{
    if cells.len() == 0 {
        0
    } else {
        ones_in_cells(cells.drop_last()) + ones8(cells.last(), 8)
    }
}

/// The slots of the set bits of a cell, from slot `base` on, up to bit `k`.
proof fn lemma_ones8_set(b: u8, base: int, k: nat)
    requires
        k <= 8,
    ensures
        ({
            let s = Set::new(|n: int| base <= n < base + k && bit8(b, (n - base) as u8));
            s.finite() && s.len() == ones8(b, k)
        }),
    decreases k,
{
    let s = Set::new(|n: int| base <= n < base + k && bit8(b, (n - base) as u8));
    if k == 0 {
        assert(s =~= Set::<int>::empty());
    } else {
        let less = (k - 1) as nat;
        let t = Set::new(|n: int| base <= n < base + less && bit8(b, (n - base) as u8));
        lemma_ones8_set(b, base, less);
        if bit8(b, (k - 1) as u8) {
            assert(s =~= t.insert(base + k - 1));
        } else {
            assert(s =~= t);
        }
    }
}

/// The number of set bits of cells is the number of slots whose bit is set.
pub proof fn lemma_count_is_slots(cells: Seq<u8>)
    ensures
        set_slots(cells).finite(),
        set_slots(cells).len() == ones_in_cells(cells),
    decreases cells.len(),
{
    if cells.len() == 0 {
        assert(set_slots(cells) =~= Set::<int>::empty());
    } else {
        let less = cells.drop_last();
        let base = 8 * less.len() as int;
        let b = cells.last();
        lemma_count_is_slots(less);
        lemma_ones8_set(b, base, 8);
        let top = Set::new(|n: int| base <= n < base + 8 && bit8(b, (n - base) as u8));
        assert forall|n: int| set_slots(cells).contains(n) <==> set_slots(less).contains(n)
            || top.contains(n) by {
            if 0 <= n < base {
                assert(less[n / 8] == cells[n / 8]);
            } else if base <= n < base + 8 {
                assert(n / 8 == less.len() && n % 8 == n - base);
            }
        }
        assert(set_slots(cells) =~= set_slots(less).union(top));
        assert(set_slots(less).disjoint(top));
        vstd::set_lib::lemma_set_disjoint_lens(set_slots(less), top);
    }
}

/// The number of entries that are true.
pub open spec fn trues(s: Seq<bool>) -> nat
    decreases s.len(),
{
    if s.len() == 0 {
        0
    } else {
        trues(s.drop_last()) + if s.last() {
            1nat
        } else {
            0
        }
    }
}

/// A list that tells the members of a set below its length holds as many true entries.
pub proof fn lemma_trues(s: Seq<bool>, members: Set<int>)
    requires
        forall|i: int| 0 <= i < s.len() ==> s[i] == #[trigger] members.contains(i),
        forall|i: int| #[trigger] members.contains(i) ==> 0 <= i < s.len(),
    ensures
        members.finite(),
        trues(s) == members.len(),
    decreases s.len(),
{
    if s.len() == 0 {
        assert(members =~= Set::<int>::empty());
    } else {
        let less = s.drop_last();
        let last = s.len() - 1;
        let rest = members.remove(last);
        assert forall|i: int| 0 <= i < less.len() implies less[i] == #[trigger] rest.contains(i) by {
            assert(less[i] == s[i]);
            assert(members.contains(i) == s[i]);
        }
        lemma_trues(less, rest);
        assert(members.contains(last) == s[last]);
        if s[last] {
            assert(members =~= rest.insert(last));
        } else {
            assert(members =~= rest);
        }
    }
}

pub proof fn lemma_ones8_bound(b: u8, k: nat)
    ensures
        ones8(b, k) <= k,
    decreases k,
{
    if k > 0 {
        lemma_ones8_bound(b, (k - 1) as nat);
    }
}

pub proof fn lemma_ones_in_cells_bound(cells: Seq<u8>)
    ensures
        ones_in_cells(cells) <= 8 * cells.len(),
    decreases cells.len(),
{
    if cells.len() > 0 {
        lemma_ones_in_cells_bound(cells.drop_last());
        lemma_ones8_bound(cells.last(), 8);
    }
}

/// The number of set bits of a byte.
pub fn count_ones8(b: u8) -> (r: u32)
    ensures
        r == ones8(b, 8),
        r <= 8,
{
    let mut i: u8 = 0;
    let mut n: u32 = 0;
    while i < 8
        invariant
            i <= 8,
            n == ones8(b, i as nat),
            n <= i,
        decreases 8 - i,
    {
        proof {
            lemma_bit8(b, 0, i);
        }
        if (b >> i) & 1 == 1 {
            n = n + 1;
        }
        i = i + 1;
    }
    n
}

/// The number of set bits in all cells.
pub fn count_cells(cells: &Vec<u8>) -> (r: usize)
    requires
        8 * cells@.len() <= usize::MAX,
    ensures
        r == ones_in_cells(cells@),
{
    let mut i: usize = 0;
    let mut n: usize = 0;
    while i < cells.len()
        invariant
            i <= cells@.len(),
            8 * cells@.len() <= usize::MAX,
            n == ones_in_cells(cells@.take(i as int)),
        decreases cells@.len() - i,
    {
        let k: u32 = count_ones8(cells[i]);
        assert(cells@.take(i + 1).drop_last() =~= cells@.take(i as int));
        proof {
            lemma_ones_in_cells_bound(cells@.take(i as int));
        }
        n = n + k as usize;
        i = i + 1;
    }
    assert(cells@.take(i as int) =~= cells@);
    n
}

/// Sets bit `bit` of cell `index`.
pub fn set_cell_bit(cells: &mut Vec<u8>, index: usize, bit: usize)
    requires
        index < old(cells)@.len(),
        bit < 8,
    ensures
        final(cells)@.len() == old(cells)@.len(),
        set_slots(final(cells)@) == set_slots(old(cells)@).insert(8 * index + bit),
{
    let ghost before = cells@;
    let b: u8 = cells[index];
    cells.set(index, b | (1u8 << bit as u8));
    proof {
        assert forall|n: int| #[trigger]
            set_slots(cells@).contains(n) <==> set_slots(before).insert(8 * index + bit).contains(
                n,
            ) by {
            if 0 <= n < 8 * before.len() {
                lemma_bit8(b, bit as u8, (n % 8) as u8);
            }
        }
        assert(set_slots(cells@) =~= set_slots(before).insert(8 * index + bit));
    }
}

/// Clears bit `bit` of cell `index`.
pub fn clear_cell_bit(cells: &mut Vec<u8>, index: usize, bit: usize)
    requires
        index < old(cells)@.len(),
        bit < 8,
    ensures
        final(cells)@.len() == old(cells)@.len(),
        set_slots(final(cells)@) == set_slots(old(cells)@).remove(8 * index + bit),
{
    let ghost before = cells@;
    let b: u8 = cells[index];
    cells.set(index, b & !(1u8 << bit as u8));
    proof {
        assert forall|n: int| #[trigger]
            set_slots(cells@).contains(n) <==> set_slots(before).remove(8 * index + bit).contains(
                n,
            ) by {
            if 0 <= n < 8 * before.len() {
                lemma_bit8(b, bit as u8, (n % 8) as u8);
            }
        }
        assert(set_slots(cells@) =~= set_slots(before).remove(8 * index + bit));
    }
}

/// Tests bit `bit` of cell `index`.
pub fn test_cell_bit(cells: &Vec<u8>, index: usize, bit: usize) -> (r: bool)
    requires
        index < cells@.len(),
        bit < 8,
    ensures
        r == set_slots(cells@).contains(8 * index + bit),
{
    let b: u8 = cells[index];
    proof {
        lemma_bit8(b, bit as u8, bit as u8);
    }
    (b & (1u8 << bit as u8)) != 0
}

/// Clears all bits of the cells `start..end`.
pub fn zero_cells(cells: &mut Vec<u8>, start: usize, end: usize)
    requires
        start <= end <= old(cells)@.len(),
    ensures
        final(cells)@.len() == old(cells)@.len(),
        set_slots(final(cells)@) == set_slots(old(cells)@).filter(
            |n: int| !(8 * start <= n < 8 * end),
        ),
{
    let ghost before = cells@;
    let mut i: usize = start;
    while i < end
        invariant
            start <= i <= end <= cells@.len(),
            cells@.len() == before.len(),
            forall|k: int|
                0 <= k < cells@.len() ==> cells@[k] == (if start <= k < i {
                    0
                } else {
                    before[k]
                }),
        decreases end - i,
    {
        cells.set(i, 0);
        i = i + 1;
    }
    proof {
        let want = set_slots(before).filter(|n: int| !(8 * start <= n < 8 * end));
        assert forall|n: int| #[trigger]
            set_slots(cells@).contains(n) <==> want.contains(n) by {
            if 0 <= n < 8 * before.len() {
                lemma_zero_bits8((n % 8) as u8);
            }
        }
        assert(set_slots(cells@) =~= want);
    }
}

/// A fresh run of zero cells.
pub fn zeroed_cells(len: usize) -> (cells: Vec<u8>)
    ensures
        cells@.len() == len,
        forall|i: int| 0 <= i < len ==> cells@[i] == 0,
        set_slots(cells@) == Set::<int>::empty(),
{
    let cells: Vec<u8> = vec![0u8; len];
    proof {
        lemma_zero_cells_empty(cells@);
    }
    cells
}

/// Zero cells hold no slot.
pub proof fn lemma_zero_cells_empty(cells: Seq<u8>)
    requires
        forall|i: int| 0 <= i < cells.len() ==> cells[i] == 0,
    ensures
        set_slots(cells) == Set::<int>::empty(),
{
    assert forall|n: int| !#[trigger] set_slots(cells).contains(n) by {
        if 0 <= n < 8 * cells.len() {
            lemma_zero_bits8((n % 8) as u8);
        }
    }
    assert(set_slots(cells) =~= Set::<int>::empty());
}

/// The slots that a cell with value `cell` at position `index` contributes.
pub open spec fn cell_set(cell: u8, index: int) -> Set<int> {
    Set::new(|n: int| 8 * index <= n < 8 * index + 8 && bit8(cell, (n - 8 * index) as u8))
}

/// A number that fits in 32 bits keeps its value.
pub proof fn lemma_low32(x: usize)
    by (bit_vector)
    ensures
        x <= 0xffff_ffffusize ==> x as u32 == x,
{
}

} // verus!
