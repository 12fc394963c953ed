//! Fixed-width integers as byte strings.
use vstd::prelude::*;

verus! {

/// The big-endian bytes of `v`.
pub open spec fn be32(v: u32) -> Seq<u8> {
    seq![
        (v / 0x100_0000) as u8,
        (v / 0x1_0000 % 0x100) as u8,
        (v / 0x100 % 0x100) as u8,
        (v % 0x100) as u8,
    ]
}

/// The number whose big-endian bytes stand at `pos` in `s`.
pub open spec fn be32_at(s: Seq<u8>, pos: int) -> int {
    s[pos] * 0x100_0000 + s[pos + 1] * 0x1_0000 + s[pos + 2] * 0x100 + s[pos + 3]
}

/// The little-endian bytes of `v`.
pub open spec fn le32(v: u32) -> Seq<u8> {
    seq![
        (v % 0x100) as u8,
        (v / 0x100 % 0x100) as u8,
        (v / 0x1_0000 % 0x100) as u8,
        (v / 0x100_0000) as u8,
    ]
}

/// The number whose little-endian bytes stand at `pos` in `s`.
pub open spec fn le32_at(s: Seq<u8>, pos: int) -> int {
    s[pos] + s[pos + 1] * 0x100 + s[pos + 2] * 0x1_0000 + s[pos + 3] * 0x100_0000
}

/// The little-endian bytes of `v`.
pub open spec fn le16(v: u16) -> Seq<u8> {
    seq![(v % 0x100) as u8, (v / 0x100) as u8]
}

/// The number whose little-endian bytes stand at `pos` in `s`.
pub open spec fn le16_at(s: Seq<u8>, pos: int) -> int {
    s[pos] + s[pos + 1] * 0x100
}

/// Reads a big-endian number.
pub fn read_be32(s: &[u8], pos: usize) -> (r: u32)
    requires
        pos + 4 <= s@.len(),
    ensures
        r == be32_at(s@, pos as int),
{
    s[pos] as u32 * 0x100_0000 + s[pos + 1] as u32 * 0x1_0000 + s[pos + 2] as u32 * 0x100 + s[pos
        + 3] as u32
}

/// Reads a little-endian number.
pub fn read_le32(s: &[u8], pos: usize) -> (r: u32)
    requires
        pos + 4 <= s@.len(),
    ensures
        r == le32_at(s@, pos as int),
{
    s[pos] as u32 + s[pos + 1] as u32 * 0x100 + s[pos + 2] as u32 * 0x1_0000 + s[pos + 3] as u32
        * 0x100_0000
}

/// Reads a little-endian number.
pub fn read_le16(s: &[u8], pos: usize) -> (r: u16)
    requires
        pos + 2 <= s@.len(),
    ensures
        r == le16_at(s@, pos as int),
{
    s[pos] as u16 + s[pos + 1] as u16 * 0x100
}

/// Appends the little-endian bytes of `v`.
pub fn push_le32(out: &mut Vec<u8>, v: u32)
    ensures
        final(out)@ == old(out)@ + le32(v),
{
    out.push((v % 0x100) as u8);
    out.push((v / 0x100 % 0x100) as u8);
    out.push((v / 0x1_0000 % 0x100) as u8);
    out.push((v / 0x100_0000) as u8);
    assert(out@ =~= old(out)@ + le32(v));
}

/// Appends the little-endian bytes of `v`.
pub fn push_le16(out: &mut Vec<u8>, v: u16)
    ensures
        final(out)@ == old(out)@ + le16(v),
{
    out.push((v % 0x100) as u8);
    out.push((v / 0x100) as u8);
    assert(out@ =~= old(out)@ + le16(v));
}

/// A number written big-endian is read back wherever its bytes stand.
pub proof fn be32_round_trip(v: u32, s: Seq<u8>, pos: int)
    requires
        0 <= pos,
        pos + 4 <= s.len(),
        s.subrange(pos, pos + 4) == be32(v),
    ensures
        be32_at(s, pos) == v,
{
    let t = s.subrange(pos, pos + 4);
    assert(t[0] == s[pos] && t[1] == s[pos + 1] && t[2] == s[pos + 2] && t[3] == s[pos + 3]);
}

/// A number read big-endian is written as the bytes it was read from.
pub proof fn be32_of_read(s: Seq<u8>, pos: int)
    requires
        0 <= pos,
        pos + 4 <= s.len(),
    ensures
        0 <= be32_at(s, pos) <= u32::MAX,
        be32(be32_at(s, pos) as u32) == s.subrange(pos, pos + 4),
{
    let (a, b, c, d) = (s[pos], s[pos + 1], s[pos + 2], s[pos + 3]);
    let v = (a * 0x100_0000 + b * 0x1_0000 + c * 0x100 + d) as u32;
    assert(v / 0x100_0000 == a && v / 0x1_0000 % 0x100 == b && v / 0x100 % 0x100 == c && v % 0x100
        == d) by (bit_vector)
        requires
            v == a * 0x100_0000 + b * 0x1_0000 + c * 0x100 + d,
    ;
    assert(be32(v) =~= s.subrange(pos, pos + 4));
}

/// A number written little-endian is read back wherever its bytes stand.
pub proof fn le32_round_trip(v: u32, s: Seq<u8>, pos: int)
    requires
        0 <= pos,
        pos + 4 <= s.len(),
        s.subrange(pos, pos + 4) == le32(v),
    ensures
        le32_at(s, pos) == v,
{
    let t = s.subrange(pos, pos + 4);
    assert(t[0] == s[pos] && t[1] == s[pos + 1] && t[2] == s[pos + 2] && t[3] == s[pos + 3]);
}

/// A number written little-endian is read back wherever its bytes stand.
pub proof fn le16_round_trip(v: u16, s: Seq<u8>, pos: int)
    requires
        0 <= pos,
        pos + 2 <= s.len(),
        s.subrange(pos, pos + 2) == le16(v),
    ensures
        le16_at(s, pos) == v,
{
    let t = s.subrange(pos, pos + 2);
    assert(t[0] == s[pos] && t[1] == s[pos + 1]);
}

/// A number read little-endian is written as the bytes it was read from.
pub proof fn le32_of_read(s: Seq<u8>, pos: int)
    requires
        0 <= pos,
        pos + 4 <= s.len(),
    ensures
        0 <= le32_at(s, pos) <= u32::MAX,
        le32(le32_at(s, pos) as u32) == s.subrange(pos, pos + 4),
{
    let (a, b, c, d) = (s[pos], s[pos + 1], s[pos + 2], s[pos + 3]);
    let v = (a + b * 0x100 + c * 0x1_0000 + d * 0x100_0000) as u32;
    assert(v % 0x100 == a && v / 0x100 % 0x100 == b && v / 0x1_0000 % 0x100 == c && v / 0x100_0000
        == d) by (bit_vector)
        requires
            v == a + b * 0x100 + c * 0x1_0000 + d * 0x100_0000,
    ;
    assert(le32(v) =~= s.subrange(pos, pos + 4));
}

/// A number read little-endian is written as the bytes it was read from.
pub proof fn le16_of_read(s: Seq<u8>, pos: int)
    requires
        0 <= pos,
        pos + 2 <= s.len(),
    ensures
        0 <= le16_at(s, pos) <= u16::MAX,
        le16(le16_at(s, pos) as u16) == s.subrange(pos, pos + 2),
{
    let v = le16_at(s, pos) as u16;
    assert(v % 0x100 == s[pos] && v / 0x100 == s[pos + 1]);
    assert(le16(v) =~= s.subrange(pos, pos + 2));
}

/// The bytes of a number are its digits to the base 256: highest first in a
/// big-endian string, lowest first in a little-endian one.
pub proof fn bytes_are_digits(v: u32, w: u16)
    ensures
        be32(v).len() == 4,
        be32(v)[0] * 0x100_0000 + be32(v)[1] * 0x1_0000 + be32(v)[2] * 0x100 + be32(v)[3] == v,
        le32(v).len() == 4,
        le32(v)[0] + le32(v)[1] * 0x100 + le32(v)[2] * 0x1_0000 + le32(v)[3] * 0x100_0000 == v,
        le16(w).len() == 2,
        le16(w)[0] + le16(w)[1] * 0x100 == w,
{
    assert(be32(v).subrange(0, 4) =~= be32(v));
    be32_round_trip(v, be32(v), 0);
    assert(le32(v).subrange(0, 4) =~= le32(v));
    le32_round_trip(v, le32(v), 0);
    assert(le16(w).subrange(0, 2) =~= le16(w));
    le16_round_trip(w, le16(w), 0);
}

/// A number is read by the weight of its digits.
pub proof fn digits_are_read_by_weight(s: Seq<u8>, pos: int)
    ensures
        be32_at(s, pos) == s[pos] * 0x100_0000 + s[pos + 1] * 0x1_0000 + s[pos + 2] * 0x100 + s[pos
            + 3],
        le32_at(s, pos) == s[pos] + s[pos + 1] * 0x100 + s[pos + 2] * 0x1_0000 + s[pos + 3]
            * 0x100_0000,
        le16_at(s, pos) == s[pos] + s[pos + 1] * 0x100,
{
}

} // verus!
