//! Comparisons and the integer cast of IEEE 754 numbers, over their bits.
//!
//! A number is handed over as the unsigned integer that has its bits, sign bit
//! highest. Numbers of one sign are ordered as their bits are, so a comparison
//! needs no arithmetic on the numbers themselves.
use vstd::arithmetic::power2::pow2;
use vstd::prelude::*;

verus! {

/// Whether the bits are those of a single-precision NaN.
pub open spec fn is_nan32(b: u32) -> bool {
    b % 0x8000_0000 > 0x7F80_0000
}

/// The place of a single-precision number in the order of all of them: both
/// zeros stand at 0, negative numbers below.
pub open spec fn order32(b: u32) -> int {
    if b < 0x8000_0000 {
        b as int
    } else {
        0x8000_0000 - b
    }
}

/// `a >= b` on single-precision numbers: false where one is a NaN.
pub open spec fn at_least32(a: u32, b: u32) -> bool {
    !is_nan32(a) && !is_nan32(b) && order32(a) >= order32(b)
}

/// `a == b` on single-precision numbers: false where one is a NaN.
pub open spec fn equal32(a: u32, b: u32) -> bool {
    !is_nan32(a) && !is_nan32(b) && order32(a) == order32(b)
}

/// Whether the bits are those of a double-precision NaN.
pub open spec fn is_nan64(b: u64) -> bool {
    b % 0x8000_0000_0000_0000 > 0x7FF0_0000_0000_0000
}

/// The place of a double-precision number in the order of all of them: both
/// zeros stand at 0, negative numbers below.
pub open spec fn order64(b: u64) -> int {
    if b < 0x8000_0000_0000_0000 {
        b as int
    } else {
        0x8000_0000_0000_0000 - b
    }
}

/// `a == b` on double-precision numbers: false where one is a NaN.
pub open spec fn equal64(a: u64, b: u64) -> bool {
    !is_nan64(a) && !is_nan64(b) && order64(a) == order64(b)
}

/// `b >= 0` on a double-precision number.
pub open spec fn non_negative64(b: u64) -> bool {
    !is_nan64(b) && order64(b) >= 0
}

/// The integer part of a double-precision number, held to the range of `u32`:
/// 0 for a NaN and below 0, the greatest `u32` above the range.
pub open spec fn truncated64(b: u64) -> u32 {
    let exponent = b / 0x10_0000_0000_0000;
    let mantissa = b % 0x10_0000_0000_0000;
    if is_nan64(b) || b >= 0x8000_0000_0000_0000 || exponent < 1023 {
        0
    } else if exponent >= 1055 {
        u32::MAX
    } else {
        ((0x10_0000_0000_0000 + mantissa) / (pow2((1075 - exponent) as nat) as int)) as u32
    }
}

/// `a >= b` on single-precision numbers.
pub fn at_least(a: u32, b: u32) -> (r: bool)
    ensures
        r == at_least32(a, b),
{
    if a % 0x8000_0000 > 0x7F80_0000 || b % 0x8000_0000 > 0x7F80_0000 {
        return false;
    }
    if a < 0x8000_0000 {
        if b < 0x8000_0000 {
            a >= b
        } else {
            true
        }
    } else if b < 0x8000_0000 {
        a == 0x8000_0000 && b == 0
    } else {
        a <= b
    }
}

/// `a == b` on single-precision numbers.
pub fn same(a: u32, b: u32) -> (r: bool)
    ensures
        r == equal32(a, b),
{
    at_least(a, b) && at_least(b, a)
}

/// `a == b` on double-precision numbers.
pub fn equal(a: u64, b: u64) -> (r: bool)
    ensures
        r == equal64(a, b),
{
    let a_magnitude = a % 0x8000_0000_0000_0000;
    let b_magnitude = b % 0x8000_0000_0000_0000;
    if a_magnitude > 0x7FF0_0000_0000_0000 || b_magnitude > 0x7FF0_0000_0000_0000 {
        return false;
    }
    a == b || (a_magnitude == 0 && b_magnitude == 0)
}

/// `b >= 0` on a double-precision number.
pub fn non_negative(b: u64) -> (r: bool)
    ensures
        r == non_negative64(b),
{
    b <= 0x7FF0_0000_0000_0000 || b == 0x8000_0000_0000_0000
}

/// The integer part of a double-precision number, held to the range of `u32`.
pub fn truncate(b: u64) -> (r: u32)
    ensures
        r == truncated64(b),
{
    let exponent = b / 0x10_0000_0000_0000;
    let mantissa = b % 0x10_0000_0000_0000;
    if b > 0x7FF0_0000_0000_0000 || exponent < 1023 {
        0
    } else if exponent >= 1055 {
        u32::MAX
    } else {
        let whole: u64 = 0x10_0000_0000_0000 + mantissa;
        let shift = 1075 - exponent;
        proof {
            vstd::bits::lemma_u64_shr_is_div(whole, shift);
            assert(whole >> shift <= 0xFFFF_FFFF) by (bit_vector)
                requires
                    whole < 0x20_0000_0000_0000,
                    21 <= shift <= 52,
            ;
        }
        (whole >> shift) as u32
    }
}

} // verus!
