//! Rounding, leading zeros, sizes with a suffix, and a small filter.

use vstd::arithmetic::power2::{lemma2_to64, lemma_pow2_adds, lemma_pow2_pos, pow2};
use vstd::prelude::*;

use crate::heap::{lemma_log2_floor, lemma_log2_unique, log2_floor};

verus! {

/// `x` with the bits below the power of two `n` cleared.
pub fn round_down(x: i64, n: i64) -> (r: i64)
    requires
        n > 0,
    ensures
        r == x & ((-n) as i64),
        n & ((n - 1) as i64) == 0 ==> r <= x && x - r < n && r & ((n - 1) as i64) == 0,
{
    proof {
        lemma_round_down(x, n);
    }
    x & (-n)
}

proof fn lemma_round_down(x: i64, n: i64)
    by (bit_vector)
    requires
        n > 0,
    ensures
        n & ((n - 1) as i64) == 0 ==> (x & ((-n) as i64)) <= x && x - (x & ((-n) as i64)) < n && (x
            & ((-n) as i64)) & ((n - 1) as i64) == 0,
{
}

/// `x` rounded up to a multiple of the power of two `n`.
pub fn round_up(x: i64, n: i64) -> (r: i64)
    requires
        n > 0,
        x + n - 1 <= i64::MAX,
    ensures
        r == ((x + n - 1) as i64) & ((-n) as i64),
        n & ((n - 1) as i64) == 0 ==> x <= r && r - x < n && r & ((n - 1) as i64) == 0,
{
    round_down(x + (n - 1), n)
}

/// The number of leading zeros of a value of `bits` bits, found by halving. At one bit the
/// value is flipped.
pub open spec fn halved_zeros(bits: int, value: int) -> int
    decreases bits,
{
    if bits <= 1 {
        if value % 2 == 0 {
            value + 1
        } else {
            value - 1
        }
    } else {
        let half = bits / 2;
        let upper = value / (pow2(half as nat) as int);
        if upper != 0 {
            halved_zeros(half, upper)
        } else {
            halved_zeros(half, value) + half
        }
    }
}

/// The number of leading zeros of a value that has room in `bits` bits.
pub open spec fn leading_zeros(bits: int, value: int) -> int {
    if value == 0 {
        bits
    } else {
        bits - 1 - log2_floor(value)
    }
}

proof fn lemma_halved_bounds(bits: int, value: int)
    requires
        1 <= bits,
        0 <= value,
    ensures
        0 <= halved_zeros(bits, value),
        halved_zeros(bits, value) <= bits + value,
    decreases bits,
{
    if bits > 1 {
        let half = bits / 2;
        lemma_pow2_pos(half as nat);
        let p = pow2(half as nat) as int;
        let upper = value / p;
        vstd::arithmetic::div_mod::lemma_div_pos_is_pos(value, p);
        vstd::arithmetic::div_mod::lemma_div_nonincreasing(value, p);
        lemma_halved_bounds(half, upper);
        lemma_halved_bounds(half, value);
    }
}

/// For a width that is a power of two, halving finds the number of leading zeros.
pub proof fn lemma_halved_zeros(bits: int, value: int, k: nat)
    requires
        bits == pow2(k),
        0 <= value < pow2(bits as nat),
    ensures
        halved_zeros(bits, value) == leading_zeros(bits, value),
    decreases k,
{
    lemma2_to64();
    if k == 0 {
        assert(value == 0 || value == 1);
        if value == 1 {
            lemma_log2_unique(1, 0);
        }
    } else {
        vstd::arithmetic::power2::lemma_pow2_unfold(k);
        let half = bits / 2;
        assert(half == pow2((k - 1) as nat));
        lemma_pow2_pos((k - 1) as nat);
        lemma_pow2_pos(half as nat);
        let p = pow2(half as nat) as int;
        lemma_pow2_adds(half as nat, half as nat);
        vstd::arithmetic::div_mod::lemma_fundamental_div_mod(value, p);
        let upper = value / p;
        let low = value % p;
        assert(0 <= upper < p) by (nonlinear_arith)
            requires
                value == p * upper + low,
                0 <= low < p,
                0 <= value < p * p,
                p > 0,
        ;
        if upper != 0 {
            lemma_halved_zeros(half, upper, (k - 1) as nat);
            lemma_log2_floor(upper);
            let m = log2_floor(upper);
            vstd::arithmetic::power2::lemma_pow2_unfold(m + 1);
            lemma_pow2_adds(m, half as nat);
            lemma_pow2_adds(m + 1, half as nat);
            assert(pow2(m) * p <= value < pow2(m + 1) * p) by (nonlinear_arith)
                requires
                    value == p * upper + low,
                    0 <= low < p,
                    pow2(m) <= upper,
                    upper + 1 <= pow2(m + 1),
                    p > 0,
            ;
            lemma_log2_unique(value, (m + half) as nat);
        } else {
            assert(value == low) by (nonlinear_arith)
                requires
                    value == p * upper + low,
                    upper == 0,
            ;
            lemma_halved_zeros(half, value, (k - 1) as nat);
        }
    }
}

/// The width that is looked at next.
fn next_bits(x: usize) -> (r: usize)
    ensures
        r == if x == 1 {
            1
        } else {
            x as int / 2
        },
{
    if x == 1 {
        1
    } else {
        x / 2
    }
}

proof fn lemma_flip(value: u64)
    by (bit_vector)
    ensures
        value ^ 1 == (if value % 2 == 0 {
            value + 1
        } else {
            value - 1
        }),
{
}

/// Whether the number that halving finds for a value of up to `width` bits is at most `max`.
/// That is so for every value of the full width.
pub open spec fn zeros_fit(bits: int, value: int, width: int, max: int) -> bool {
    bits + value <= max || bits == width || halved_zeros(bits, value) <= max
}

/// For a width that is a power of two, and a value that has room in it, halving finds the
/// number of leading zeros.
proof fn lemma_zeros_exact(bits: int, value: int)
    requires
        bits == 1 || bits == 2 || bits == 4 || bits == 8 || bits == 16 || bits == 32 || bits == 64,
        0 <= value < pow2(bits as nat),
    ensures
        halved_zeros(bits, value) == leading_zeros(bits, value),
        0 <= leading_zeros(bits, value) <= bits,
        value != 0 ==> pow2((bits - 1 - leading_zeros(bits, value)) as nat) <= value < pow2(
            (bits - leading_zeros(bits, value)) as nat,
        ),
        leading_zeros(bits, value) == bits <==> value == 0,
{
    lemma2_to64();
    let k: nat = if bits == 1 {
        0
    } else if bits == 2 {
        1
    } else if bits == 4 {
        2
    } else if bits == 8 {
        3
    } else if bits == 16 {
        4
    } else if bits == 32 {
        5
    } else {
        6
    };
    lemma_halved_zeros(bits, value, k);
    if value != 0 {
        lemma_log2_floor(value);
        if log2_floor(value) >= bits {
            if log2_floor(value) > bits {
                vstd::arithmetic::power2::lemma_pow2_strictly_increases(
                    bits as nat,
                    log2_floor(value),
                );
            }
        }
    }
}

/// The number of leading zeros of a value of `bits` bits, found by halving. Where the
/// value has room in a power of two of bits, the number is exact.
pub fn count_leading_zeros_64_(bits: usize, value: u64) -> (r: u64)
    requires
        1 <= bits <= 64,
        zeros_fit(bits as int, value as int, 64, u64::MAX as int),
    ensures
        r == halved_zeros(bits as int, value as int),
        (bits == 1 || bits == 2 || bits == 4 || bits == 8 || bits == 16 || bits == 32 || bits == 64)
            && value < pow2(bits as nat) ==> {
            &&& r == leading_zeros(bits as int, value as int)
            &&& r <= bits
            &&& r == bits <==> value == 0
            &&& value != 0 ==> pow2((bits - 1 - r) as nat) <= value < pow2((bits - r) as nat)
        },
    decreases bits,
{
    proof {
        lemma2_to64();
        lemma_halved_bounds(bits as int, value as int);
        if (bits == 1 || bits == 2 || bits == 4 || bits == 8 || bits == 16 || bits == 32 || bits
            == 64) && value < pow2(bits as nat) {
            lemma_zeros_exact(bits as int, value as int);
        }
    }
    if bits == 1 {
        proof {
            lemma_flip(value);
        }
        return value ^ 1;
    }
    let half: u64 = bits as u64 / 2;
    proof {
        vstd::bits::lemma_u64_shr_is_div(value, half);
        lemma_pow2_pos(half as nat);
        lemma_halved_bounds(half as int, value as int);
    }
    let upper_half: u64 = value >> half;
    if upper_half != 0 {
        count_leading_zeros_64_(next_bits(bits), upper_half)
    } else {
        count_leading_zeros_64_(next_bits(bits), value) + half
    }
}

/// The number of leading zeros of a value of `bits` bits, found by halving. Where the
/// value has room in a power of two of bits, the number is exact.
pub fn count_leading_zeros_32_(bits: usize, value: u32) -> (r: u32)
    requires
        1 <= bits <= 32,
        zeros_fit(bits as int, value as int, 32, u32::MAX as int),
    ensures
        r == halved_zeros(bits as int, value as int),
        (bits == 1 || bits == 2 || bits == 4 || bits == 8 || bits == 16 || bits == 32 || bits == 64)
            && value < pow2(bits as nat) ==> {
            &&& r == leading_zeros(bits as int, value as int)
            &&& r <= bits
            &&& r == bits <==> value == 0
            &&& value != 0 ==> pow2((bits - 1 - r) as nat) <= value < pow2((bits - r) as nat)
        },
{
    proof {
        lemma2_to64();
        lemma_halved_bounds(bits as int, value as int);
        if (bits == 1 || bits == 2 || bits == 4 || bits == 8 || bits == 16 || bits == 32 || bits
            == 64) && value < pow2(bits as nat) {
            lemma_zeros_exact(bits as int, value as int);
        }
    }
    count_leading_zeros_64_(bits, value as u64) as u32
}

/// The number of leading zeros of a value of `bits` bits, found by halving. Where the
/// value has room in a power of two of bits, the number is exact.
pub fn count_leading_zeros_16_(bits: usize, value: u16) -> (r: u16)
    requires
        1 <= bits <= 16,
        zeros_fit(bits as int, value as int, 16, u16::MAX as int),
    ensures
        r == halved_zeros(bits as int, value as int),
        (bits == 1 || bits == 2 || bits == 4 || bits == 8 || bits == 16 || bits == 32 || bits == 64)
            && value < pow2(bits as nat) ==> {
            &&& r == leading_zeros(bits as int, value as int)
            &&& r <= bits
            &&& r == bits <==> value == 0
            &&& value != 0 ==> pow2((bits - 1 - r) as nat) <= value < pow2((bits - r) as nat)
        },
{
    proof {
        lemma2_to64();
        lemma_halved_bounds(bits as int, value as int);
        if (bits == 1 || bits == 2 || bits == 4 || bits == 8 || bits == 16 || bits == 32 || bits
            == 64) && value < pow2(bits as nat) {
            lemma_zeros_exact(bits as int, value as int);
        }
    }
    count_leading_zeros_64_(bits, value as u64) as u16
}

/// The number of leading zeros of a value of `bits` bits, found by halving. Where the
/// value has room in a power of two of bits, the number is exact.
pub fn count_leading_zeros_8_(bits: usize, value: u8) -> (r: u8)
    requires
        1 <= bits <= 8,
        zeros_fit(bits as int, value as int, 8, u8::MAX as int),
    ensures
        r == halved_zeros(bits as int, value as int),
        (bits == 1 || bits == 2 || bits == 4 || bits == 8 || bits == 16 || bits == 32 || bits == 64)
            && value < pow2(bits as nat) ==> {
            &&& r == leading_zeros(bits as int, value as int)
            &&& r <= bits
            &&& r == bits <==> value == 0
            &&& value != 0 ==> pow2((bits - 1 - r) as nat) <= value < pow2((bits - r) as nat)
        },
{
    proof {
        lemma2_to64();
        lemma_halved_bounds(bits as int, value as int);
        if (bits == 1 || bits == 2 || bits == 4 || bits == 8 || bits == 16 || bits == 32 || bits
            == 64) && value < pow2(bits as nat) {
            lemma_zeros_exact(bits as int, value as int);
        }
    }
    count_leading_zeros_64_(bits, value as u64) as u8
}

/// The number of leading zeros of a value of 64 bits.
pub fn count_leading_zeros_64(value: u64) -> (r: u64)
    ensures
        r == leading_zeros(64, value as int),
{
    proof {
        lemma2_to64();
    }
    count_leading_zeros_64_(64, value)
}

/// The number of leading zeros of a value of 32 bits.
pub fn count_leading_zeros_32(value: u32) -> (r: u32)
    ensures
        r == leading_zeros(32, value as int),
{
    proof {
        lemma2_to64();
    }
    count_leading_zeros_32_(32, value)
}

/// The number of leading zeros of a value of 16 bits.
pub fn count_leading_zeros_16(value: u16) -> (r: u16)
    ensures
        r == leading_zeros(16, value as int),
{
    proof {
        lemma2_to64();
    }
    count_leading_zeros_16_(16, value)
}

/// The number of leading zeros of a value of 8 bits.
pub fn count_leading_zeros_8(value: u8) -> (r: u8)
    ensures
        r == leading_zeros(8, value as int),
{
    proof {
        lemma2_to64();
    }
    count_leading_zeros_8_(8, value)
}

/// The number of leading zeros of a machine word.
pub fn count_leading_zeros(value: usize) -> (r: usize)
    ensures
        r == leading_zeros(usize::BITS as int, value as int),
{
    proof {
        lemma2_to64();
        if value != 0 {
            lemma_log2_floor(value as int);
        }
    }
    if usize::BITS == 32 {
        count_leading_zeros_32(value as u32) as usize
    } else {
        count_leading_zeros_64(value as u64) as usize
    }
}

/// How much a suffix multiplies a number by, if it is one.
pub open spec fn factor_of(c: u8) -> Option<usize> {
    if c == 0x67 || c == 0x47 {
        Some(0x4000_0000usize)
    } else if c == 0x6d || c == 0x4d {
        Some(0x10_0000usize)
    } else if c == 0x6b || c == 0x4b {
        Some(0x400usize)
    } else {
        None
    }
}

/// The length of a size without the letter for bytes that it may end in.
pub open spec fn without_byte_letter(value: Seq<u8>) -> int {
    if value.len() > 1 && (value.last() == 0x62 || value.last() == 0x42) {
        value.len() - 1
    } else {
        value.len() as int
    }
}

/// Splits a size such as `4k`, `16M` or `1gb` in the length of its number and what the
/// number is to be multiplied by. Nothing is left of an empty one.
pub fn split_factor(value: &Vec<u8>) -> (r: Option<(usize, usize)>)
    ensures
        r == if value@.len() == 0 {
            None
        } else {
            let n = without_byte_letter(value@);
            match factor_of(value@[n - 1]) {
                Some(f) => Some(((n - 1) as usize, f)),
                None => Some((n as usize, 1usize)),
            }
        },
{
    let mut n: usize = value.len();
    if n == 0 {
        return None;
    }
    if n > 1 && (value[n - 1] == 0x62 || value[n - 1] == 0x42) {
        n = n - 1;
    }
    let c: u8 = value[n - 1];
    if c == 0x67 || c == 0x47 {
        Some((n - 1, 0x4000_0000))
    } else if c == 0x6d || c == 0x4d {
        Some((n - 1, 0x10_0000))
    } else if c == 0x6b || c == 0x4b {
        Some((n - 1, 0x400))
    } else {
        Some((n, 1))
    }
}

/// A number multiplied by what its suffix stands for, if there is room for the product.
pub fn scaled(value: usize, factor: usize) -> (r: Option<usize>)
    ensures
        r == if value * factor <= usize::MAX {
            Some((value * factor) as usize)
        } else {
            None
        },
{
    value.checked_mul(factor)
}

/// A filter that can tell that something was never added.
#[derive(Clone, Copy, PartialEq, Eq, Debug, Structural)]
pub struct TinyBloomFilter {
    bits: usize,
}

impl TinyBloomFilter {
    pub closed spec fn view(&self) -> usize {
        self.bits
    }

    pub fn new(bits: usize) -> (r: Self)
        ensures
            r@ == bits,
    {
        TinyBloomFilter { bits }
    }

    /// Whether something with the given bits was never added.
    pub fn rule_out(&self, bits: usize) -> (r: bool)
        ensures
            r == (bits == 0 || bits & self@ != bits),
    {
        if bits == 0 {
            return true;
        }
        if (bits & self.bits) != bits {
            return true;
        }
        false
    }

    pub fn add(&mut self, other: &Self)
        ensures
            final(self)@ == old(self)@ | other@,
    {
        self.bits = self.bits | other.bits;
    }

    pub fn add_bits(&mut self, bits: usize)
        ensures
            final(self)@ == old(self)@ | bits,
    {
        self.bits = self.bits | bits;
    }

    pub fn reset(&mut self)
        ensures
            final(self)@ == 0,
    {
        self.bits = 0;
    }

    pub fn bits(&self) -> (r: usize)
        ensures
            r == self@,
    {
        self.bits
    }

    /// What has been added is never ruled out, whatever is added besides.
    pub proof fn lemma_never_ruled_out(before: usize, bits: usize, more: usize)
        ensures
            bits & ((before | bits) | more) == bits,
    {
        lemma_filter(before, bits, more);
    }
}

proof fn lemma_filter(before: usize, bits: usize, more: usize)
    by (bit_vector)
    ensures
        bits & ((before | bits) | more) == bits,
{
}

} // verus!
