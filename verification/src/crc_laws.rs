//! What the checksum is: the remainder of a polynomial division, told apart
//! from how it is computed.
use crate::crc::{crc32_of, crc_bit, crc_bits, crc_remainder};
use vstd::prelude::*;

verus! {

/// Eight steps of the division, written out.
spec fn eight_steps(c: u32) -> u32 {
    crc_bit(crc_bit(crc_bit(crc_bit(crc_bit(crc_bit(crc_bit(crc_bit(c))))))))
}

/// One byte takes eight steps.
proof fn lemma_one_byte(c: u32, b: u8)
    ensures
        crc_remainder(c, seq![b]) == eight_steps(c ^ (b as u32)),
{
    let s = seq![b];
    assert(s.drop_last() =~= Seq::empty());
    assert(s.last() == b);
    reveal_with_fuel(crc_remainder, 2);
    reveal_with_fuel(crc_bits, 9);
    assert(crc_bits(c ^ (b as u32), 8) == eight_steps(c ^ (b as u32)));
}

/// Dividing goes on where it stopped: the remainder after two strings is that
/// after the second one, from the remainder of the first. What a byte does to
/// the remainder does not depend on its place.
pub proof fn remainder_goes_on(c: u32, s: Seq<u8>, t: Seq<u8>)
    ensures
        crc_remainder(c, s + t) == crc_remainder(crc_remainder(c, s), t),
        crc_remainder(c, Seq::<u8>::empty()) == c,
    decreases t.len(),
{
    if t.len() == 0 {
        assert(s + t =~= s);
    } else {
        remainder_goes_on(c, s, t.drop_last());
        assert((s + t).drop_last() =~= s + t.drop_last());
        assert((s + t).last() == t.last());
    }
}

/// A byte is folded in whole, whatever its value: it is added to the lowest
/// eight coefficients of the remainder and divided with them, and the others
/// move down by eight.
pub proof fn a_byte_is_folded_in_whole(c: u32, b: u8)
    ensures
        crc_remainder(c, seq![b]) == crc_remainder(c ^ (b as u32), seq![0u8]),
        crc_remainder(c, seq![0u8]) == (c >> 8) ^ crc_remainder(c & 0xFF, seq![0u8]),
{
    lemma_one_byte(c, b);
    lemma_one_byte(c ^ (b as u32), 0);
    lemma_one_byte(c, 0);
    lemma_one_byte(c & 0xFF, 0);
    let x = c ^ (b as u32);
    assert(x ^ 0u32 == x) by (bit_vector);
    assert(c ^ 0u32 == c) by (bit_vector);
    let low = c & 0xFF;
    assert(low ^ 0u32 == low) by (bit_vector);
    assert(0u8 as u32 == 0u32);
    lemma_high_part(c);
}

/// Coefficients above the eighth only move down.
proof fn lemma_high_part(c: u32)
    ensures
        eight_steps(c) == (c >> 8) ^ eight_steps(c & 0xFF),
{
    assert(eight_steps(c) == (c >> 8) ^ eight_steps(c & 0xFF)) by (bit_vector);
}

/// The polynomial is that of PNG: the remainders that the eight lowest
/// coefficients leave, one by one.
pub proof fn the_polynomial_is_that_of_png()
    ensures
        crc_remainder(0x01, seq![0u8]) == 0x7707_3096,
        crc_remainder(0x02, seq![0u8]) == 0xEE0E_612C,
        crc_remainder(0x04, seq![0u8]) == 0x076D_C419,
        crc_remainder(0x08, seq![0u8]) == 0x0EDB_8832,
        crc_remainder(0x10, seq![0u8]) == 0x1DB7_1064,
        crc_remainder(0x20, seq![0u8]) == 0x3B6E_20C8,
        crc_remainder(0x40, seq![0u8]) == 0x76DC_4190,
        crc_remainder(0x80, seq![0u8]) == 0xEDB8_8320,
{
    lemma_zero_byte(0x01);
    lemma_zero_byte(0x02);
    lemma_zero_byte(0x04);
    lemma_zero_byte(0x08);
    lemma_zero_byte(0x10);
    lemma_zero_byte(0x20);
    lemma_zero_byte(0x40);
    lemma_zero_byte(0x80);
    assert(eight_steps(0x01) == 0x7707_3096 && eight_steps(0x02) == 0xEE0E_612C && eight_steps(0x04)
        == 0x076D_C419 && eight_steps(0x08) == 0x0EDB_8832 && eight_steps(0x10) == 0x1DB7_1064
        && eight_steps(0x20) == 0x3B6E_20C8 && eight_steps(0x40) == 0x76DC_4190
        && eight_steps(0x80) == 0xEDB8_8320) by (bit_vector);
}

/// A zero byte takes eight steps from the remainder as it is.
proof fn lemma_zero_byte(c: u32)
    ensures
        crc_remainder(c, seq![0u8]) == eight_steps(c),
{
    lemma_one_byte(c, 0);
    assert(c ^ 0u32 == c) by (bit_vector);
    assert(0u8 as u32 == 0u32);
}

/// One step of a sum is the sum of the steps.
proof fn lemma_step_is_linear(p: u32, q: u32)
    ensures
        crc_bit(p) ^ crc_bit(q) == crc_bit(p ^ q),
{
    assert(crc_bit(p) ^ crc_bit(q) == crc_bit(p ^ q)) by (bit_vector);
}

/// Eight steps of a sum are the sum of the steps.
proof fn lemma_steps_are_linear(p: u32, q: u32)
    ensures
        eight_steps(p) ^ eight_steps(q) == eight_steps(p ^ q),
{
    let (p1, q1) = (crc_bit(p), crc_bit(q));
    let (p2, q2) = (crc_bit(p1), crc_bit(q1));
    let (p3, q3) = (crc_bit(p2), crc_bit(q2));
    let (p4, q4) = (crc_bit(p3), crc_bit(q3));
    let (p5, q5) = (crc_bit(p4), crc_bit(q4));
    let (p6, q6) = (crc_bit(p5), crc_bit(q5));
    let (p7, q7) = (crc_bit(p6), crc_bit(q6));
    lemma_step_is_linear(p, q);
    lemma_step_is_linear(p1, q1);
    lemma_step_is_linear(p2, q2);
    lemma_step_is_linear(p3, q3);
    lemma_step_is_linear(p4, q4);
    lemma_step_is_linear(p5, q5);
    lemma_step_is_linear(p6, q6);
    lemma_step_is_linear(p7, q7);
}

/// Division is linear: the remainder of a sum is the sum of the remainders. The
/// checksums of two strings of one length differ by what depends on the bitwise
/// difference of the strings alone.
pub proof fn remainder_is_linear(a: u32, b: u32, s: Seq<u8>, t: Seq<u8>)
    requires
        s.len() == t.len(),
    ensures
        crc_remainder(a, s) ^ crc_remainder(b, t) == crc_remainder(
            a ^ b,
            Seq::new(s.len(), |i: int| s[i] ^ t[i]),
        ),
    decreases s.len(),
{
    let sum = Seq::new(s.len(), |i: int| s[i] ^ t[i]);
    if s.len() > 0 {
        let (s1, t1) = (s.drop_last(), t.drop_last());
        remainder_is_linear(a, b, s1, t1);
        assert(sum.drop_last() =~= Seq::new(s1.len(), |i: int| s1[i] ^ t1[i]));
        lemma_split_last(a, s);
        lemma_split_last(b, t);
        lemma_split_last(a ^ b, sum);
        let (p, q) = (crc_remainder(a, s1), crc_remainder(b, t1));
        let (x, y) = (s.last(), t.last());
        assert(sum.last() == x ^ y);
        lemma_steps_are_linear(p ^ (x as u32), q ^ (y as u32));
        assert((p ^ (x as u32)) ^ (q ^ (y as u32)) == (p ^ q) ^ ((x ^ y) as u32)) by (bit_vector);
    }
}

/// The last byte of a string takes eight steps from the remainder before it.
proof fn lemma_split_last(c: u32, s: Seq<u8>)
    requires
        s.len() > 0,
    ensures
        crc_remainder(c, s) == eight_steps(crc_remainder(c, s.drop_last()) ^ (s.last() as u32)),
{
    remainder_goes_on(c, s.drop_last(), seq![s.last()]);
    assert(s.drop_last() + seq![s.last()] =~= s);
    lemma_one_byte(crc_remainder(c, s.drop_last()), s.last());
}

/// The checksum is the complement of the remainder that starts with all ones.
pub proof fn checksum_is_the_complement(s: Seq<u8>)
    ensures
        crc32_of(s) ^ 0xFFFF_FFFF == crc_remainder(0xFFFF_FFFF, s),
{
    let r = crc_remainder(0xFFFF_FFFF, s);
    assert((!r) ^ 0xFFFF_FFFF == r) by (bit_vector);
}

/// The checksums of two strings of one length differ by what depends on the
/// bitwise difference of the strings alone.
pub proof fn checksums_differ_by_the_difference(s: Seq<u8>, t: Seq<u8>)
    requires
        s.len() == t.len(),
    ensures
        crc32_of(s) ^ crc32_of(t) == crc32_of(Seq::new(s.len(), |i: int| s[i] ^ t[i])) ^ crc32_of(
            Seq::new(s.len(), |i: int| 0u8),
        ),
{
    let ones: u32 = 0xFFFF_FFFF;
    let sum = Seq::new(s.len(), |i: int| s[i] ^ t[i]);
    let zeros = Seq::new(s.len(), |i: int| 0u8);
    remainder_is_linear(ones, ones, s, t);
    remainder_is_linear(ones, ones, sum, zeros);
    assert(Seq::new(sum.len(), |i: int| sum[i] ^ zeros[i]) =~= sum) by {
        assert forall|i: int| 0 <= i < sum.len() implies sum[i] ^ zeros[i] == sum[i] by {
            let x = sum[i];
            assert(x ^ 0u8 == x) by (bit_vector);
        }
    }
    let (a, b) = (crc_remainder(ones, s), crc_remainder(ones, t));
    let (c, d) = (crc_remainder(ones, sum), crc_remainder(ones, zeros));
    assert((!a) ^ (!b) == a ^ b) by (bit_vector);
    assert((!c) ^ (!d) == c ^ d) by (bit_vector);
}

/// A string that carries its checksum behind it, lowest byte first, leaves one
/// and the same remainder, whatever the string.
pub proof fn a_checked_string_leaves_the_residue(s: Seq<u8>)
    ensures
        ({
            let sum = crc32_of(s);
            let check = seq![
                (sum & 0xFF) as u8,
                ((sum >> 8) & 0xFF) as u8,
                ((sum >> 16) & 0xFF) as u8,
                (sum >> 24) as u8,
            ];
            crc_remainder(0xFFFF_FFFF, s + check) == 0xDEBB_20E3
        }),
{
    let c = crc_remainder(0xFFFF_FFFF, s);
    let sum = !c;
    let (b0, b1, b2, b3) = (
        (sum & 0xFF) as u8,
        ((sum >> 8) & 0xFF) as u8,
        ((sum >> 16) & 0xFF) as u8,
        (sum >> 24) as u8,
    );
    let check = seq![b0, b1, b2, b3];
    remainder_goes_on(0xFFFF_FFFF, s, check);
    let (r1, r2, r3) = (
        crc_remainder(c, seq![b0]),
        crc_remainder(c, seq![b0, b1]),
        crc_remainder(c, seq![b0, b1, b2]),
    );
    remainder_goes_on(c, seq![b0], seq![b1]);
    remainder_goes_on(c, seq![b0, b1], seq![b2]);
    remainder_goes_on(c, seq![b0, b1, b2], seq![b3]);
    assert(seq![b0] + seq![b1] =~= seq![b0, b1]);
    assert(seq![b0, b1] + seq![b2] =~= seq![b0, b1, b2]);
    assert(seq![b0, b1, b2] + seq![b3] =~= check);
    lemma_one_byte(c, b0);
    lemma_one_byte(r1, b1);
    lemma_one_byte(r2, b2);
    lemma_one_byte(r3, b3);
    lemma_high_part(c ^ (b0 as u32));
    lemma_high_part(r1 ^ (b1 as u32));
    lemma_high_part(r2 ^ (b2 as u32));
    lemma_high_part(r3 ^ (b3 as u32));
    let k1 = eight_steps(0xFF);
    let x0 = c ^ (b0 as u32);
    assert(x0 & 0xFF == 0xFF && x0 >> 8 == c >> 8) by (bit_vector)
        requires
            b0 == ((!c) & 0xFF) as u8,
            x0 == c ^ (b0 as u32),
    ;
    assert(k1 == 0x2D02_EF8D) by {
        assert(eight_steps(0xFF) == 0x2D02_EF8D) by (bit_vector);
    }
    assert(r1 == (c >> 8) ^ 0x2D02_EF8D);
    lemma_rest_of_residue(c, r1, r2, r3, b1, b2, b3);
}

/// The last three bytes of a checksum, from the remainder that the first one
/// leaves.
proof fn lemma_rest_of_residue(c: u32, r1: u32, r2: u32, r3: u32, b1: u8, b2: u8, b3: u8)
    requires
        b1 == (((!c) >> 8) & 0xFF) as u8,
        b2 == (((!c) >> 16) & 0xFF) as u8,
        b3 == ((!c) >> 24) as u8,
        r1 == (c >> 8) ^ 0x2D02_EF8D,
        r2 == eight_steps(r1 ^ (b1 as u32)),
        r3 == eight_steps(r2 ^ (b2 as u32)),
    ensures
        eight_steps(r3 ^ (b3 as u32)) == 0xDEBB_20E3,
{
    assert(eight_steps(r1 ^ (b1 as u32)) == (c >> 16) ^ ((0x2D02_EF8Du32 >> 8) ^ eight_steps(0x72)))
        by (bit_vector)
        requires
            b1 == (((!c) >> 8) & 0xFF) as u8,
            r1 == (c >> 8) ^ 0x2D02_EF8D,
    ;
    let k2: u32 = (0x2D02_EF8Du32 >> 8) ^ eight_steps(0x72);
    assert(k2 == (0x2D02_EF8Du32 >> 8) ^ eight_steps(0x72));
    assert(r2 == (c >> 16) ^ k2);
    let low2: u32 = (k2 ^ 0xFF) & 0xFF;
    assert(eight_steps(r2 ^ (b2 as u32)) == (c >> 24) ^ ((k2 >> 8) ^ eight_steps(low2))) by (
    bit_vector)
        requires
            b2 == (((!c) >> 16) & 0xFF) as u8,
            r2 == (c >> 16) ^ k2,
            low2 == (k2 ^ 0xFF) & 0xFF,
    ;
    let k3: u32 = (k2 >> 8) ^ eight_steps(low2);
    let low3: u32 = (k3 ^ 0xFF) & 0xFF;
    assert(eight_steps(r3 ^ (b3 as u32)) == (k3 >> 8) ^ eight_steps(low3)) by (bit_vector)
        requires
            b3 == ((!c) >> 24) as u8,
            r3 == (c >> 24) ^ k3,
            low3 == (k3 ^ 0xFF) & 0xFF,
    ;
    assert((k3 >> 8) ^ eight_steps(low3) == 0xDEBB_20E3) by (bit_vector)
        requires
            k2 == (0x2D02_EF8Du32 >> 8) ^ eight_steps(0x72),
            low2 == (k2 ^ 0xFF) & 0xFF,
            k3 == (k2 >> 8) ^ eight_steps(low2),
            low3 == (k3 ^ 0xFF) & 0xFF,
    ;
}

} // verus!
