//! The region-based heap: side tables, free lists, marking, sweeping and the
//! decisions that drive collection cycles.

use vstd::arithmetic::power2::{
    lemma_pow2_pos, lemma_pow2_strictly_increases, lemma_pow2_unfold, pow2,
};
use vstd::prelude::*;
use vstd::string::StrSliceExecFns;

use crate::bits::{
    bit8, cell_bit, count_cells, is_power_of_two, lemma_align_mask, lemma_bit8,
    lemma_count_is_slots, lemma_trues, trues,
    set_slots, zero_cells, zeroed_cells,
};

pub mod bitmap;
pub mod card_table;
pub mod concurrent_gc;
pub mod concurrent_thread;
pub mod controller;
pub mod cycle;
pub mod degenerated_gc;
pub mod deque;
pub mod free_list;
pub mod free_set;
pub mod full_gc;
pub mod heap;
pub mod heuristics;
pub mod immix;
pub mod mark;
pub mod mark_bitmap;
pub mod mark_sweep;
pub mod marking;
pub mod marking_context;
pub mod obj_storage;
pub mod pacer;
pub mod queue;
pub mod region;
pub mod root_processor;
pub mod safepoint;
pub mod satb_mark_queue;
pub mod shared_vars;
pub mod sweeper;
pub mod taskqueue;
pub mod thread;
pub mod timer;
pub mod tlab;
pub mod tracer;
pub mod write_barrier;

verus! {

/// `addr` with the bits below `align` cleared: for a power of two, rounded down
/// to a multiple of it.
pub fn align_down(addr: usize, align: usize) -> (r: usize)
    ensures
        r == addr & !align.wrapping_sub(1),
        is_power_of_two(align as int) ==> r == addr - addr % align,
{
    proof {
        if is_power_of_two(align as int) {
            lemma_align_mask(addr, align);
        }
    }
    addr & !align.wrapping_sub(1)
}

/// `addr` and `align` less one, with the bits below `align` cleared: for a power of two,
/// rounded up to a multiple of it.
pub fn align_up(addr: usize, align: usize) -> (r: usize)
    ensures
        r == addr.wrapping_add(align).wrapping_sub(1) & !align.wrapping_sub(1),
        is_power_of_two(align as int) && addr + align - 1 <= usize::MAX ==> r % align == 0 && addr
            <= r < addr + align,
{
    let sum: usize = addr.wrapping_add(align).wrapping_sub(1);
    proof {
        if is_power_of_two(align as int) {
            lemma_align_mask(sum, align);
            if addr + align - 1 <= usize::MAX {
                let a = align as int;
                vstd::arithmetic::power2::lemma_pow2_pos(0);
                assert(align > 0);
                assert(sum == addr + align - 1);
                vstd::arithmetic::div_mod::lemma_fundamental_div_mod(sum as int, a);
                vstd::arithmetic::div_mod::lemma_mod_multiples_basic(sum as int / a, a);
                assert(sum - sum as int % a == sum as int / a * a) by (nonlinear_arith)
                    requires
                        sum == a * (sum as int / a) + sum as int % a,
                ;
            }
        }
    }
    sum & !align.wrapping_sub(1)
}

/// Whether all bits of `addr` below `align` are clear: for a power of two,
/// whether `addr` is a multiple of it.
pub fn is_aligned(addr: usize, align: usize) -> (r: bool)
    ensures
        r == (addr & align.wrapping_sub(1) == 0),
        is_power_of_two(align as int) ==> r == (addr % align == 0),
{
    proof {
        if is_power_of_two(align as int) {
            lemma_align_mask(addr, align);
        }
    }
    addr & align.wrapping_sub(1) == 0
}

/// rounds the given value `val` up to the nearest multiple
/// of `align`.
pub fn align_usize(value: usize, align: usize) -> (r: usize)
    requires
        align > 0,
    ensures
        r == ((value.wrapping_add(align).wrapping_sub(1)) / align).wrapping_mul(align),
        value + align <= usize::MAX ==> r == bitmap::rounded_up(value as int, align as int),
{
    proof {
        if value + align <= usize::MAX {
            let n = value + align - 1;
            vstd::arithmetic::div_mod::lemma_fundamental_div_mod(n, align as int);
            let q = n / align as int;
            assert(q * align == align * q) by (nonlinear_arith);
            assert(q >= 0) by {
                vstd::arithmetic::div_mod::lemma_div_pos_is_pos(n, align as int);
            }
            let m = value.wrapping_add(align).wrapping_sub(1);
            assert(m == n && m / align == q);
            assert(((m / align) as nat * align as nat) == q * align);
            vstd::arithmetic::div_mod::lemma_small_mod(
                (q * align) as nat,
                (usize::MAX - usize::MIN + 1) as nat,
            );
        }
    }
    ((value.wrapping_add(align).wrapping_sub(1)) / align).wrapping_mul(align)
}

/// The number of trailing zero bits: for a power of two, its exponent.
pub fn which_power_of_two(value: usize) -> (r: usize)
    ensures
        value == 0 ==> r == usize::BITS,
        forall|k: nat| value == #[trigger] pow2(k) ==> r == k,
        r <= usize::BITS,
        value != 0 ==> r < 64,
{
    if value == 0 {
        proof {
            assert forall|k: nat| value == #[trigger] pow2(k) implies false by {
                lemma_pow2_pos(k);
            }
        }
        return usize::BITS as usize;
    }
    let r: u32 = (value as u64).trailing_zeros();
    proof {
        broadcast use vstd::std_specs::bits::axiom_u64_trailing_zeros;

        let v = value as u64;
        let t = r as u64;
        assert((v >> t) & 1 == 1);
        assert(v >= (1u64 << t)) by (bit_vector)
            requires
                (v >> t) & 1 == 1,
                t < 64,
        ;
        lemma_shift_is_pow2(t);
        if r >= usize::BITS {
            assert(usize::BITS == 32);
            vstd::arithmetic::power2::lemma2_to64();
            if r > 32 {
                lemma_pow2_strictly_increases(32, r as nat);
            }
            assert(false);
        }
        assert forall|k: nat| value == #[trigger] pow2(k) implies r == k by {
            if k > r {
                lemma_pow2_below_64(k, v);
                let kk = k as u64;
                lemma_shift_is_pow2(kk);
                assert(((1u64 << kk) >> t) & 1 == 0) by (bit_vector)
                    requires
                        t < kk,
                        kk < 64,
                ;
            }
            if k < r {
                lemma_pow2_strictly_increases(k, r as nat);
            }
        }
    }
    r as usize
}

/// A power of two that fits in a word has an exponent below its width.
proof fn lemma_pow2_below_64(k: nat, v: u64)
    requires
        v == pow2(k),
    ensures
        k < 64,
{
    vstd::arithmetic::power2::lemma2_to64();
    vstd::arithmetic::power2::lemma2_to64_rest();
    if k > 64 {
        lemma_pow2_strictly_increases(64, k);
    }
}

/// Shifting a one gives a power of two.
pub proof fn lemma_shift_is_pow2(k: u64)
    requires
        k < 64,
    ensures
        1u64 << k == pow2(k as nat),
{
    vstd::bits::lemma_u64_pow2_no_overflow(k as nat);
    vstd::bits::lemma_u64_shl_is_mul(1, k);
}

/// The base-two logarithm, rounded down.
pub open spec fn log2_floor(n: int) -> nat
    decreases n,
{
    if n <= 1 {
        0
    } else {
        1 + log2_floor(n / 2)
    }
}

/// The logarithm lies between two powers of two.
pub proof fn lemma_log2_floor(n: int)
    requires
        n >= 1,
    ensures
        pow2(log2_floor(n)) <= n < pow2(log2_floor(n) + 1),
    decreases n,
{
    vstd::arithmetic::power2::lemma2_to64();
    if n > 1 {
        lemma_log2_floor(n / 2);
        lemma_pow2_unfold(log2_floor(n));
        lemma_pow2_unfold(log2_floor(n) + 1);
    }
}

/// Only one exponent brackets a number.
pub proof fn lemma_log2_unique(n: int, k: nat)
    requires
        n >= 1,
        pow2(k) <= n < pow2(k + 1),
    ensures
        log2_floor(n) == k,
{
    lemma_log2_floor(n);
    if log2_floor(n) < k {
        if log2_floor(n) + 1 < k {
            lemma_pow2_strictly_increases(log2_floor(n) + 1, k);
        }
    }
    if log2_floor(n) > k {
        if k + 1 < log2_floor(n) {
            lemma_pow2_strictly_increases(k + 1, log2_floor(n));
        }
    }
}

/// The smallest power of two that is not below `value`.
pub fn round_up_to_power_of_two32(value: u32) -> (r: u32)
    requires
        value <= 0x8000_0000,
    ensures
        is_power_of_two(r as int),
        r >= value,
        value > 1 ==> r < 2 * value,
        value <= 1 ==> r == 1,
{
    let v: u32 = if value > 0 {
        value - 1
    } else {
        value
    };
    let zeros: u32 = v.leading_zeros();
    proof {
        broadcast use vstd::std_specs::bits::axiom_u32_leading_zeros;

        vstd::arithmetic::power2::lemma2_to64();
        let n = (32 - zeros) as u32;
        if v != 0 {
            let m = (31 - zeros) as u32;
            assert(v >> n == 0 || n == 32);
            assert((v >> m) & 1 != 0);
            assert(v < 0x8000_0000u32 && (v >> m) & 1 != 0 ==> m < 31) by (bit_vector)
                requires
                    m < 32,
            ;
            assert(v < (1u32 << n) && v >= (1u32 << m) && (1u32 << n) == 2 * (1u32 << m))
                by (bit_vector)
                requires
                    (v >> m) & 1 != 0,
                    v >> n == 0,
                    n == m + 1,
                    m < 31,
            ;
        }
        vstd::bits::lemma_u32_pow2_no_overflow(n as nat);
        vstd::bits::lemma_u32_shl_is_mul(1, n);
        assert(is_power_of_two(pow2(n as nat) as int));
    }
    1u32 << (32 - zeros)
}

/// The largest power of two that is not above `value`; zero for zero.
pub fn round_down_to_power_of_two32(value: u32) -> (r: u32)
    ensures
        value == 0 ==> r == 0,
        value > 0 ==> is_power_of_two(r as int) && r <= value < 2 * r,
{
    if value > 0x8000_0000 {
        proof {
            vstd::arithmetic::power2::lemma2_to64();
            assert(is_power_of_two(pow2(31) as int));
        }
        return 0x8000_0000;
    }
    let mut result: u32 = round_up_to_power_of_two32(value);
    if result > value {
        proof {
            let k = choose|k: nat| result as int == #[trigger] pow2(k);
            vstd::arithmetic::power2::lemma2_to64();
            if k > 0 {
                lemma_pow2_unfold(k);
                assert(is_power_of_two(pow2((k - 1) as nat) as int));
            }
            assert(result >> 1 == result / 2) by (bit_vector);
        }
        result = result >> 1;
    }
    result
}

#[derive(Clone, Copy, PartialEq, Eq, PartialOrd, Ord, Debug, Structural)]
pub enum AllocType {
    ForLAB,
    Shared,
}

/// A request for memory: how much is wanted, how little will do, and how much
/// was handed out.
pub struct AllocRequest {
    min_size: usize,
    requested_size: usize,
    actual_size: usize,
    typ: AllocType,
}

impl AllocRequest {
    pub closed spec fn spec_min_size(&self) -> usize {
        self.min_size
    }

    pub closed spec fn spec_size(&self) -> usize {
        self.requested_size
    }

    pub closed spec fn spec_actual_size(&self) -> usize {
        self.actual_size
    }

    pub closed spec fn spec_type(&self) -> AllocType {
        self.typ
    }

    pub fn new(typ: AllocType, min_size: usize, requested_size: usize) -> (r: Self)
        ensures
            r.spec_type() == typ,
            r.spec_min_size() == min_size,
            r.spec_size() == requested_size,
            r.spec_actual_size() == 0,
    {
        Self { typ, min_size, requested_size, actual_size: 0 }
    }

    pub fn for_lab(&self) -> (r: bool)
        ensures
            r == (self.spec_type() == AllocType::ForLAB),
    {
        self.typ == AllocType::ForLAB
    }

    pub fn size(&self) -> (r: usize)
        ensures
            r == self.spec_size(),
    {
        self.requested_size
    }

    pub fn min_size(&self) -> (r: usize)
        ensures
            r == self.spec_min_size(),
    {
        self.min_size
    }

    pub fn actual_size(&self) -> (r: usize)
        ensures
            r == self.spec_actual_size(),
    {
        self.actual_size
    }

    pub fn set_actual_size(&mut self, actual_size: usize)
        ensures
            final(self).spec_actual_size() == actual_size,
            final(self).spec_size() == old(self).spec_size(),
            final(self).spec_min_size() == old(self).spec_min_size(),
            final(self).spec_type() == old(self).spec_type(),
    {
        self.actual_size = actual_size;
    }
}

/// A bitmap whose size is chosen when it is made.
#[derive(Debug)]
pub struct DynBitmap {
    buffer: Vec<u8>,
    bit_count: usize,
}

impl DynBitmap {
    /// The bits that are set.
    pub closed spec fn ones(&self) -> Set<int> {
        set_slots(self.buffer@)
    }

    /// The bytes that hold the bits.
    pub closed spec fn bytes(&self) -> Seq<u8> {
        self.buffer@
    }

    /// The number of bits that were asked for.
    pub closed spec fn bits(&self) -> int {
        self.bit_count as int
    }

    /// Every bit that was asked for has a place.
    pub open spec fn wf(&self) -> bool {
        self.bits() <= 8 * self.bytes().len()
    }

    /// A bitmap of `bits` bits, none of them set.
    pub fn contained(bits: usize) -> (r: Self)
        requires
            bits + 7 <= usize::MAX,
        ensures
            r.wf(),
            r.bits() == bits,
            r.bytes().len() == (bits + 7) / 8,
            r.ones() == Set::<int>::empty(),
    {
        Self { buffer: zeroed_cells(Self::bytes_required(bits)), bit_count: bits }
    }

    pub fn bytes_required(bits: usize) -> (r: usize)
        requires
            bits + 7 <= usize::MAX,
        ensures
            r == (bits + 7) / 8,
    {
        (bits + 7) / 8
    }

    /// The value of a bit.
    pub fn get(&self, bit_index: usize) -> (r: bool)
        requires
            bit_index < 8 * self.bytes().len(),
        ensures
            r == self.ones().contains(bit_index as int),
    {
        let byte: u8 = self.buffer[bit_index / 8];
        Self::get_value(byte, (bit_index % 8) as u8)
    }

    fn get_value(byte: u8, index: u8) -> (r: bool)
        requires
            index < 8,
        ensures
            r == bit8(byte, index),
    {
        ((byte >> index) & 0b0000_0001) == 1
    }

    fn set_value(byte: u8, value: bool, index: u8) -> (r: u8)
        requires
            index < 8,
        ensures
            forall|j: u8|
                j < 8 ==> #[trigger] bit8(r, j) == (if j == index {
                    value
                } else {
                    bit8(byte, j)
                }),
    {
        let r: u8 = if value {
            byte | (1u8 << index)
        } else {
            byte & !(1u8 << index)
        };
        proof {
            assert forall|j: u8| j < 8 implies #[trigger] bit8(r, j) == (if j == index {
                value
            } else {
                bit8(byte, j)
            }) by {
                lemma_bit8(byte, index, j);
            }
        }
        r
    }

    /// Stores a bit.
    pub fn set(&mut self, bit_index: usize, value: bool)
        requires
            bit_index < 8 * old(self).bytes().len(),
        ensures
            final(self).bits() == old(self).bits(),
            final(self).bytes().len() == old(self).bytes().len(),
            final(self).ones() == (if value {
                old(self).ones().insert(bit_index as int)
            } else {
                old(self).ones().remove(bit_index as int)
            }),
    {
        let ghost before = self.buffer@;
        let index: usize = bit_index / 8;
        let byte: u8 = Self::set_value(self.buffer[index], value, (bit_index % 8) as u8);
        self.buffer.set(index, byte);
        proof {
            assert forall|n: int| #[trigger]
                self.ones().contains(n) <==> (if n == bit_index {
                    value
                } else {
                    set_slots(before).contains(n)
                }) by {
                if 0 <= n < 8 * before.len() && n / 8 == index {
                    assert(bit8(byte, (n % 8) as u8) == (if n % 8 == bit_index % 8 {
                        value
                    } else {
                        bit8(before[index as int], (n % 8) as u8)
                    }));
                }
            }
            if value {
                assert(self.ones() =~= set_slots(before).insert(bit_index as int));
            } else {
                assert(self.ones() =~= set_slots(before).remove(bit_index as int));
            }
        }
    }

    /// Appends the bytes of the bitmap to `writer`.
    pub fn write(&self, writer: &mut Vec<u8>)
        ensures
            final(writer)@ == old(writer)@ + self.bytes(),
    {
        let mut i: usize = 0;
        let ghost before = writer@;
        assert(writer@ =~= before + self.buffer@.take(0));
        while i < self.buffer.len()
            invariant
                i <= self.buffer@.len(),
                writer@ == before + self.buffer@.take(i as int),
            decreases self.buffer@.len() - i,
        {
            writer.push(self.buffer[i]);
            assert(writer@ =~= before + self.buffer@.take(i + 1));
            i = i + 1;
        }
        assert(self.buffer@.take(i as int) =~= self.buffer@);
    }

    pub fn byte_size(&self) -> (r: usize)
        ensures
            r == self.bytes().len(),
    {
        self.buffer.len()
    }

    pub fn arity(&self) -> (r: usize)
        ensures
            r == self.bits(),
    {
        self.bit_count
    }

    /// The bits that were asked for, in order.
    pub fn iter(&self) -> (r: Vec<bool>)
        requires
            self.wf(),
        ensures
            r@.len() == self.bits(),
            forall|i: int| 0 <= i < self.bits() ==> r@[i] == self.ones().contains(i),
            (forall|i: int| #[trigger] self.ones().contains(i) ==> i < self.bits()) ==> trues(r@)
                == self.ones().len(),
    {
        let mut out: Vec<bool> = Vec::new();
        let mut i: usize = 0;
        while i < self.bit_count
            invariant
                i <= self.bit_count,
                self.wf(),
                out@.len() == i,
                forall|k: int| 0 <= k < i ==> out@[k] == self.ones().contains(k),
            decreases self.bit_count - i,
        {
            out.push(self.get(i));
            i = i + 1;
        }
        proof {
            if forall|i: int| #[trigger] self.ones().contains(i) ==> i < self.bits() {
                assert forall|i: int| #[trigger] self.ones().contains(i) implies 0 <= i
                    < out@.len() by {}
                lemma_trues(out@, self.ones());
            }
        }
        out
    }

    /// Clears every bit.
    pub fn clear(&mut self)
        ensures
            final(self).bits() == old(self).bits(),
            final(self).bytes().len() == old(self).bytes().len(),
            final(self).ones() == Set::<int>::empty(),
    {
        let n: usize = self.buffer.len();
        zero_cells(&mut self.buffer, 0, n);
        assert(self.ones() =~= Set::<int>::empty());
    }

    /// The number of bits that are set.
    pub fn count_ones(&self) -> (r: usize)
        requires
            8 * self.bytes().len() <= usize::MAX,
        ensures
            r == self.ones().len(),
            self.ones().finite(),
    {
        proof {
            lemma_count_is_slots(self.buffer@);
        }
        count_cells(&self.buffer)
    }

    /// A bitmap that holds the given bits. It has at least one byte.
    pub fn from_iter(values: &Vec<bool>) -> (r: Self)
        ensures
            r.wf(),
            r.bits() == values@.len(),
            r.bytes().len() == (if values@.len() == 0 {
                1
            } else {
                (values@.len() + 7) / 8
            }),
            forall|i: int| 0 <= i < values@.len() ==> r.ones().contains(i) == #[trigger] values@[i],
            forall|i: int| r.ones().contains(i) ==> 0 <= i < values@.len(),
    {
        let mut buffer: Vec<u8> = Vec::new();
        let mut bit_idx: u8 = 0;
        let mut byte: u8 = 0;
        let mut i: usize = 0;
        proof {
            assert forall|j: u8| j < 8 implies !bit8(byte, j) by {
                crate::bits::lemma_zero_bits8(j);
            }
        }
        while i < values.len()
            invariant
                i <= values@.len(),
                bit_idx <= 8,
                8 * buffer@.len() + bit_idx == i,
                i > 0 ==> bit_idx > 0,
                forall|n: int| 0 <= n < 8 * buffer@.len() ==> cell_bit(buffer@, n) == #[trigger] values@[n],
                forall|j: u8| j < bit_idx ==> #[trigger] bit8(byte, j) == values@[8 * buffer@.len() + j],
                forall|j: u8| bit_idx <= j < 8 ==> !#[trigger] bit8(byte, j),
            decreases values@.len() - i,
        {
            if bit_idx == 8 {
                let ghost before = buffer@;
                buffer.push(byte);
                proof {
                    assert forall|n: int| 0 <= n < 8 * buffer@.len() implies cell_bit(buffer@, n)
                        == #[trigger] values@[n] by {
                        if n >= 8 * before.len() {
                            let j = (n - 8 * before.len()) as u8;
                            assert(n / 8 == before.len() && n % 8 == j);
                            assert(bit8(byte, j) == values@[8 * before.len() + j]);
                        } else {
                            assert(cell_bit(before, n) == values@[n]);
                        }
                    }
                }
                byte = 0;
                bit_idx = 0;
                proof {
                    assert forall|j: u8| j < 8 implies !#[trigger] bit8(byte, j) by {
                        crate::bits::lemma_zero_bits8(j);
                    }
                }
            }
            byte = Self::set_value(byte, values[i], bit_idx);
            bit_idx = bit_idx + 1;
            i = i + 1;
        }
        let ghost before = buffer@;
        buffer.push(byte);
        let r = Self { buffer, bit_count: i };
        proof {
            assert forall|n: int| 0 <= n < values@.len() implies r.ones().contains(n)
                == #[trigger] values@[n] by {
                if n >= 8 * before.len() {
                    let j = (n - 8 * before.len()) as u8;
                    assert(n / 8 == before.len() && n % 8 == j);
                    assert(bit8(byte, j) == values@[8 * before.len() + j]);
                } else {
                    assert(cell_bit(before, n) == values@[n]);
                }
            }
            assert forall|n: int| r.ones().contains(n) implies 0 <= n < values@.len() by {
                if n >= 8 * before.len() {
                    let j = (n - 8 * before.len()) as u8;
                    assert(n / 8 == before.len() && n % 8 == j);
                    assert(bit8(byte, j));
                }
            }
        }
        r
    }
}

/// The phase of a cycle in which it became degenerated.
#[derive(Clone, Copy, PartialEq, Eq, PartialOrd, Ord, Debug, Structural)]
pub enum DegenPoint {
    Unset,
    OutsideCycle,
    ConcurrentMark,
    ConcurrentSweep,
}

#[derive(Clone, Copy, PartialEq, Eq, PartialOrd, Ord, Debug, Structural)]
pub enum GCHeuristic {
    Adaptive,
    Agressive,
    Compact,
    Passive,
    Static,
}

/// A character in lower case.
pub open spec fn lower(c: char) -> char {
    if 'A' <= c <= 'Z' {
        (c as u32 + 32) as char
    } else {
        c
    }
}

/// Whether two texts are the same but for the case of their letters.
pub open spec fn same_but_case(a: Seq<char>, b: Seq<char>) -> bool {
    &&& a.len() == b.len()
    &&& forall|i: int| 0 <= i < a.len() ==> lower(#[trigger] a[i]) == b[i]
}

/// Whether `s`, in lower case, is `name`, whose letters are in lower case.
fn named(s: &str, name: &str) -> (r: bool)
    ensures
        r == same_but_case(s@, name@),
{
    let n: usize = s.unicode_len();
    if n != name.unicode_len() {
        return false;
    }
    let mut i: usize = 0;
    while i < n
        invariant
            i <= n,
            n == s@.len(),
            n == name@.len(),
            forall|k: int| 0 <= k < i ==> lower(#[trigger] s@[k]) == name@[k],
        decreases n - i,
    {
        let c: char = s.get_char(i);
        let d: char = name.get_char(i);
        let lowered: u32 = if 'A' <= c && c <= 'Z' {
            c as u32 + 32
        } else {
            c as u32
        };
        if lowered != d as u32 {
            assert(lower(s@[i as int]) != name@[i as int]);
            return false;
        }
        i = i + 1;
    }
    true
}

impl GCHeuristic {
    /// Whether a text names this heuristic, in any case.
    pub open spec fn is_name(self, s: Seq<char>) -> bool {
        match self {
            GCHeuristic::Adaptive => same_but_case(s, "adaptive"@),
            GCHeuristic::Agressive => same_but_case(s, "aggressive"@) || same_but_case(
                s,
                "agressive"@,
            ),
            GCHeuristic::Compact => same_but_case(s, "compact"@),
            GCHeuristic::Passive => same_but_case(s, "passive"@),
            GCHeuristic::Static => same_but_case(s, "static"@),
        }
    }

    /// The heuristic that a text names.
    pub fn from_str(s: &str) -> (r: Self)
        requires
            exists|h: GCHeuristic| h.is_name(s@),
        ensures
            r.is_name(s@),
            forall|h: GCHeuristic| #[trigger] h.is_name(s@) ==> h == r,
    {
        let r = if named(s, "adaptive") {
            GCHeuristic::Adaptive
        } else if named(s, "aggressive") || named(s, "agressive") {
            GCHeuristic::Agressive
        } else if named(s, "compact") {
            GCHeuristic::Compact
        } else if named(s, "passive") {
            GCHeuristic::Passive
        } else {
            GCHeuristic::Static
        };
        proof {
            assert forall|h: GCHeuristic| #[trigger] h.is_name(s@) implies h == r by {
                Self::lemma_names_differ(s@, h, r);
            }
        }
        r
    }

    /// No text names two heuristics.
    pub proof fn lemma_names_differ(s: Seq<char>, a: GCHeuristic, b: GCHeuristic)
        requires
            a.is_name(s),
            b.is_name(s),
        ensures
            a == b,
    {
        reveal_strlit("adaptive");
        reveal_strlit("aggressive");
        reveal_strlit("agressive");
        reveal_strlit("compact");
        reveal_strlit("passive");
        reveal_strlit("static");
        assert("compact"@[0] == 'c' && "passive"@[0] == 'p');
        assert("adaptive"@.len() == 8 && "aggressive"@.len() == 10 && "agressive"@.len() == 9 && "compact"@.len() == 7
            && "passive"@.len() == 7 && "static"@.len() == 6);
        assert(same_but_case(s, "compact"@) ==> lower(s[0]) == 'c');
        assert(same_but_case(s, "passive"@) ==> lower(s[0]) == 'p');
    }
}

/// A phase that runs beside the mutators. It starts at a point in time.
pub struct ConcurrentPhase {
    name: &'static str,
    start: u64,
}

impl ConcurrentPhase {
    pub closed spec fn spec_name(&self) -> Seq<char> {
        self.name@
    }

    pub closed spec fn spec_start(&self) -> u64 {
        self.start
    }

    pub fn new(name: &'static str, now: u64) -> (r: Self)
        ensures
            r.spec_name() == name@,
            r.spec_start() == now,
    {
        Self { name, start: now }
    }

    /// The time since the start of the phase.
    pub fn elapsed(&self, now: u64) -> (r: u64)
        requires
            self.spec_start() <= now,
        ensures
            r == now - self.spec_start(),
    {
        now - self.start
    }
}

/// A phase in which the mutators stand still. It starts at a point in time.
pub struct PausePhase {
    name: &'static str,
    start: u64,
}

impl PausePhase {
    pub closed spec fn spec_name(&self) -> Seq<char> {
        self.name@
    }

    pub closed spec fn spec_start(&self) -> u64 {
        self.start
    }

    pub fn new(name: &'static str, now: u64) -> (r: Self)
        ensures
            r.spec_name() == name@,
            r.spec_start() == now,
    {
        Self { name, start: now }
    }

    /// The time since the start of the phase.
    pub fn elapsed(&self, now: u64) -> (r: u64)
        requires
            self.spec_start() <= now,
        ensures
            r == now - self.spec_start(),
    {
        now - self.start
    }
}

} // verus!
