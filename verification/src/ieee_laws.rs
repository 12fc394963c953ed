//! What comparing and truncating bits means for the numbers that they encode.
use crate::ieee::{at_least32, equal32, equal64, non_negative64, truncated64};
use vstd::arithmetic::power2::{lemma_pow2_adds, lemma_pow2_pos, lemma_pow2_unfold, pow2};
use vstd::prelude::*;

verus! {

/// The magnitude that an exponent and a significand encode, in units of the
/// smallest positive number: `one` is the implicit leading digit.
pub open spec fn magnitude(exponent: nat, significand: nat, one: nat) -> nat {
    if exponent == 0 {
        significand
    } else {
        (one + significand) * pow2((exponent - 1) as nat)
    }
}

/// The single-precision number with these bits, in units of 2^-149; infinity
/// stands where the next exponent would be.
pub open spec fn value32(b: u32) -> int {
    let m = magnitude(
        (b as nat % 0x8000_0000) / 0x80_0000,
        b as nat % 0x80_0000,
        0x80_0000,
    ) as int;
    if b < 0x8000_0000 {
        m
    } else {
        -m
    }
}

/// The double-precision number with these bits, in units of 2^-1074; infinity
/// stands where the next exponent would be.
pub open spec fn value64(b: u64) -> int {
    let m = magnitude(
        (b as nat % 0x8000_0000_0000_0000) / 0x10_0000_0000_0000,
        b as nat % 0x10_0000_0000_0000,
        0x10_0000_0000_0000,
    ) as int;
    if b < 0x8000_0000_0000_0000 {
        m
    } else {
        -m
    }
}

/// The next pattern of bits is a greater number.
proof fn lemma_next_is_greater(n: nat, one: nat)
    requires
        one > 0,
    ensures
        magnitude(n / one, n % one, one) < magnitude((n + 1) / one, (n + 1) % one, one),
{
    let (e, m) = (n / one, n % one);
    vstd::arithmetic::div_mod::lemma_fundamental_div_mod(n as int, one as int);
    if m + 1 < one {
        assert((n + 1) / one == e && (n + 1) % one == m + 1) by {
            vstd::arithmetic::div_mod::lemma_fundamental_div_mod_converse(
                (n + 1) as int,
                one as int,
                e as int,
                (m + 1) as int,
            );
        }
        if e > 0 {
            let p = pow2((e - 1) as nat);
            lemma_pow2_pos((e - 1) as nat);
            assert((one + m) * p < (one + m + 1) * p) by (nonlinear_arith)
                requires
                    p > 0,
            ;
        }
    } else {
        assert((n + 1) / one == e + 1 && (n + 1) % one == 0) by {
            vstd::arithmetic::div_mod::lemma_mod_bound(n as int, one as int);
            assert((e + 1) * one == one * e + one) by (nonlinear_arith);
            vstd::arithmetic::div_mod::lemma_fundamental_div_mod_converse(
                (n + 1) as int,
                one as int,
                (e + 1) as int,
                0,
            );
        }
        lemma_pow2_pos(e);
        let q = pow2(e);
        assert(one * q >= one) by (nonlinear_arith)
            requires
                q > 0,
        ;
        if e > 0 {
            lemma_pow2_unfold(e);
            let p = pow2((e - 1) as nat);
            lemma_pow2_pos((e - 1) as nat);
            assert((one + m) * p < one * q) by (nonlinear_arith)
                requires
                    q == 2 * p,
                    m + 1 <= one,
                    p > 0,
            ;
        }
    }
}

/// Numbers of one sign are ordered as their bits are.
proof fn lemma_bits_order_numbers(a: nat, b: nat, one: nat)
    requires
        one > 0,
        a <= b,
    ensures
        magnitude(a / one, a % one, one) <= magnitude(b / one, b % one, one),
        a < b ==> magnitude(a / one, a % one, one) < magnitude(b / one, b % one, one),
    decreases b - a,
{
    if a < b {
        lemma_bits_order_numbers(a, (b - 1) as nat, one);
        lemma_next_is_greater((b - 1) as nat, one);
    }
}

/// The magnitude of a single-precision number, by its bits without the sign.
proof fn lemma_split32(b: u32)
    ensures
        b as nat % 0x80_0000 == (b as nat % 0x8000_0000) % 0x80_0000,
        magnitude(0nat / 0x80_0000nat, 0nat % 0x80_0000nat, 0x80_0000) == 0,
{
}

/// The magnitude of a double-precision number, by its bits without the sign.
proof fn lemma_split64(b: u64)
    ensures
        b as nat % 0x10_0000_0000_0000 == (b as nat % 0x8000_0000_0000_0000)
            % 0x10_0000_0000_0000,
        magnitude(0nat / 0x10_0000_0000_0000nat, 0nat % 0x10_0000_0000_0000nat, 0x10_0000_0000_0000)
            == 0,
{
}

/// Single-precision bits are compared as the numbers that they are; a NaN is
/// neither equal to a number nor at least it, nor the other way round.
pub proof fn single_precision_compares_numbers(a: u32, b: u32)
    ensures
        ({
            let numbers = a % 0x8000_0000 <= 0x7F80_0000 && b % 0x8000_0000 <= 0x7F80_0000;
            &&& at_least32(a, b) <==> numbers && value32(a) >= value32(b)
            &&& equal32(a, b) <==> numbers && value32(a) == value32(b)
        }),
{
    let (m, n) = (a as nat % 0x8000_0000, b as nat % 0x8000_0000);
    lemma_split32(a);
    lemma_split32(b);
    lemma_bits_order_numbers(0, m, 0x80_0000);
    lemma_bits_order_numbers(0, n, 0x80_0000);
    if m <= n {
        lemma_bits_order_numbers(m, n, 0x80_0000);
    } else {
        lemma_bits_order_numbers(n, m, 0x80_0000);
    }
}

/// Double-precision bits are compared as the numbers that they are; a NaN is
/// equal to nothing and not at least zero.
pub proof fn double_precision_compares_numbers(a: u64, b: u64)
    ensures
        ({
            let number = a % 0x8000_0000_0000_0000 <= 0x7FF0_0000_0000_0000;
            let other = b % 0x8000_0000_0000_0000 <= 0x7FF0_0000_0000_0000;
            &&& equal64(a, b) <==> number && other && value64(a) == value64(b)
            &&& non_negative64(a) <==> number && value64(a) >= 0
        }),
{
    let (m, n) = (a as nat % 0x8000_0000_0000_0000, b as nat % 0x8000_0000_0000_0000);
    lemma_split64(a);
    lemma_split64(b);
    lemma_bits_order_numbers(0, m, 0x10_0000_0000_0000);
    lemma_bits_order_numbers(0, n, 0x10_0000_0000_0000);
    if m <= n {
        lemma_bits_order_numbers(m, n, 0x10_0000_0000_0000);
    } else {
        lemma_bits_order_numbers(n, m, 0x10_0000_0000_0000);
    }
}

/// Truncating gives the integer part: the greatest integer that is not above
/// the number, as long as that is an unsigned 32-bit integer; 0 for what is
/// below 0 or no number, and the greatest one for what is above all.
pub proof fn truncating_gives_the_integer_part(b: u64)
    ensures
        ({
            let unit = pow2(1074) as int;
            let t = truncated64(b) as int;
            let number = b % 0x8000_0000_0000_0000 <= 0x7FF0_0000_0000_0000;
            if !number || value64(b) < 0 {
                t == 0
            } else if value64(b) < 0x1_0000_0000 * unit {
                t * unit <= value64(b) < (t + 1) * unit
            } else {
                t == 0xFFFF_FFFF
            }
        }),
{
    double_precision_compares_numbers(b, b);
    lemma_split64(b);
    let unit = pow2(1074) as int;
    lemma_pow2_pos(1074);
    let e = (b as nat % 0x8000_0000_0000_0000) / 0x10_0000_0000_0000;
    let m = b as nat % 0x10_0000_0000_0000;
    let w = (0x10_0000_0000_0000 + m) as int;
    let number = b % 0x8000_0000_0000_0000 <= 0x7FF0_0000_0000_0000;
    if b < 0x8000_0000_0000_0000 && number {
        assert(b / 0x10_0000_0000_0000 == e);
        if e == 0 {
            lemma_pow2_adds(52, 1022);
            lemma_52();
            lemma_pow2_pos(1022);
            let p = pow2(1022) as int;
            assert(m < unit) by (nonlinear_arith)
                requires
                    m < 0x10_0000_0000_0000,
                    unit == 0x10_0000_0000_0000 * p,
                    p > 0,
            ;
            assert(0 * unit == 0 && (0 + 1) * unit == unit) by (nonlinear_arith);
        } else {
            let p = pow2((e - 1) as nat) as int;
            lemma_pow2_pos((e - 1) as nat);
            assert(value64(b) == w * p);
            if e < 1023 {
                // w < 2^53 and p <= 2^1021.
                lemma_pow2_adds((e - 1) as nat, (1075 - e) as nat);
                let d = pow2((1075 - e) as nat) as int;
                assert(unit == p * d);
                lemma_pow2_adds(53, (1022 - e) as nat);
                lemma_53();
                lemma_pow2_pos((1022 - e) as nat);
                let f = pow2((1022 - e) as nat) as int;
                assert(d == 0x20_0000_0000_0000 * f);
                assert(d >= 0x20_0000_0000_0000) by (nonlinear_arith)
                    requires
                        d == 0x20_0000_0000_0000 * f,
                        f > 0,
                ;
                assert(w * p < p * d) by (nonlinear_arith)
                    requires
                        w < d,
                        p > 0,
                ;
                assert(0 * unit == 0 && (0 + 1) * unit == unit) by (nonlinear_arith);
                assert(w * p >= 0) by (nonlinear_arith)
                    requires
                        w >= 0,
                        p > 0,
                ;
            } else if e < 1055 {
                lemma_pow2_adds((e - 1) as nat, (1075 - e) as nat);
                let d = pow2((1075 - e) as nat) as int;
                lemma_pow2_pos((1075 - e) as nat);
                assert(unit == p * d);
                let q = w / d;
                vstd::arithmetic::div_mod::lemma_fundamental_div_mod(w, d);
                vstd::arithmetic::div_mod::lemma_mod_bound(w, d);
                assert(q * d <= w < (q + 1) * d) by (nonlinear_arith)
                    requires
                        w == d * q + w % d,
                        0 <= w % d < d,
                ;
                assert(q * unit <= w * p < (q + 1) * unit) by (nonlinear_arith)
                    requires
                        unit == p * d,
                        q * d <= w < (q + 1) * d,
                        p > 0,
                ;
                lemma_pow2_adds(21, (1054 - e) as nat);
                lemma_21();
                lemma_pow2_pos((1054 - e) as nat);
                let f = pow2((1054 - e) as nat) as int;
                assert(d >= 0x20_0000) by (nonlinear_arith)
                    requires
                        d == 0x20_0000 * f,
                        f > 0,
                ;
                assert(0 <= q < 0x1_0000_0000) by (nonlinear_arith)
                    requires
                        q * d <= w,
                        w < (q + 1) * d,
                        0 <= w < 0x20_0000_0000_0000,
                        d >= 0x20_0000,
                ;
                assert((q + 1) * unit <= 0x1_0000_0000 * unit) by (nonlinear_arith)
                    requires
                        q + 1 <= 0x1_0000_0000,
                        unit > 0,
                ;
                assert(truncated64(b) as int == q);
            } else {
                lemma_pow2_adds(1054, (e - 1055) as nat);
                let f = pow2((e - 1055) as nat) as int;
                lemma_pow2_pos((e - 1055) as nat);
                let g = pow2(1054) as int;
                lemma_pow2_pos(1054);
                lemma_pow2_adds(1054, 20);
                lemma_20();
                assert(unit == g * 0x10_0000);
                assert(p == g * f);
                assert(w * p >= 0x1_0000_0000 * unit) by (nonlinear_arith)
                    requires
                        w >= 0x10_0000_0000_0000,
                        p == g * f,
                        unit == g * 0x10_0000,
                        f >= 1,
                        g > 0,
                ;
            }
        }
    } else if number {
        // Minus zero, or below zero.
        if value64(b) == 0 {
            assert(0 * unit == 0 && (0 + 1) * unit == unit) by (nonlinear_arith);
        }
    }
}

/// 2^20.
proof fn lemma_20()
    ensures
        pow2(20) == 0x10_0000,
{
    vstd::arithmetic::power2::lemma2_to64();
}

/// 2^21.
proof fn lemma_21()
    ensures
        pow2(21) == 0x20_0000,
{
    vstd::arithmetic::power2::lemma2_to64();
}

/// 2^52.
proof fn lemma_52()
    ensures
        pow2(52) == 0x10_0000_0000_0000,
{
    vstd::arithmetic::power2::lemma2_to64_rest();
}

/// 2^53.
proof fn lemma_53()
    ensures
        pow2(53) == 0x20_0000_0000_0000,
{
    vstd::arithmetic::power2::lemma2_to64_rest();
}

} // verus!
