//! Compact half-precision polyline `.bin` format, all little-endian:
//!
//! ```text
//! per polyline:
//!   u32  point_count
//!   point_count * (half x, half y)   // tile-local pixel coords
//! ```
//!
//! A coordinate is handed over as the 16 bits of its IEEE 754 half-precision
//! number: rounding to that precision is the caller's.
use crate::bytes::{
    le16, le16_at, le16_of_read, le16_round_trip, le32, le32_at, le32_of_read, le32_round_trip,
    push_le16, push_le32, read_le16, read_le32,
};
use vstd::prelude::*;

verus! {

/// Coordinates of a point, each the bits of a half-precision number.
pub type HalfPoint = (u16, u16);

/// The sequences that a sequence of vectors holds.
pub open spec fn rows<T>(v: Seq<Vec<T>>) -> Seq<Seq<T>> {
    v.map_values(|row: Vec<T>| row@)
}

/// The four bytes of one point.
pub open spec fn point_bytes(p: HalfPoint) -> Seq<u8> {
    le16(p.0) + le16(p.1)
}

/// The bytes of all points of a polyline, four for each.
pub open spec fn points_bytes(points: Seq<HalfPoint>) -> Seq<u8> {
    Seq::new(4 * points.len(), |i: int| point_bytes(points[i / 4])[i % 4])
}

/// The bytes of one polyline: how many points, then the points.
pub open spec fn polyline_bytes(points: Seq<HalfPoint>) -> Seq<u8> {
    le32(points.len() as u32) + points_bytes(points)
}

/// The bytes of polylines one behind the other.
pub open spec fn encoded(lines: Seq<Seq<HalfPoint>>) -> Seq<u8>
    decreases lines.len(),
{
    if lines.len() == 0 {
        Seq::empty()
    } else {
        polyline_bytes(lines[0]) + encoded(lines.drop_first())
    }
}

/// The `count` points whose bytes stand at `pos` in `s`.
pub open spec fn points_at(s: Seq<u8>, pos: int, count: nat) -> Seq<HalfPoint> {
    Seq::new(
        count,
        |k: int| (le16_at(s, pos + 4 * k) as u16, le16_at(s, pos + 4 * k + 2) as u16),
    )
}

/// The polylines that `s` holds. `None` where a header is cut short or claims
/// more points than bytes follow.
pub open spec fn decoded(s: Seq<u8>) -> Option<Seq<Seq<HalfPoint>>>
    decreases s.len(),
{
    if s.len() == 0 {
        Some(Seq::empty())
    } else if s.len() < 4 || 4 + 4 * le32_at(s, 0) > s.len() {
        None
    } else {
        let count = le32_at(s, 0);
        match decoded(s.skip(4 + 4 * count)) {
            Some(rest) => Some(seq![points_at(s, 4, count as nat)] + rest),
            None => None,
        }
    }
}

/// Encodes polylines to the compact binary form. See the module docs for the
/// layout.
pub fn encode_bin(polylines: &[Vec<HalfPoint>]) -> (r: Vec<u8>)
    ensures
        r@ == encoded(rows(polylines@)),
{
    let mut out: Vec<u8> = Vec::new();
    let ghost lines = rows(polylines@);
    let mut i: usize = 0;
    assert(lines.skip(0) =~= lines);
    assert(out@ + encoded(lines) =~= encoded(lines));
    while i < polylines.len()
        invariant
            i <= polylines@.len(),
            lines == rows(polylines@),
            out@ + encoded(lines.skip(i as int)) == encoded(lines),
        decreases polylines@.len() - i,
    {
        let ghost before = out@;
        let ghost rest = lines.skip(i as int);
        let line = &polylines[i];
        push_le32(&mut out, line.len() as u32);
        encode_points(line.as_slice(), &mut out);
        i = i + 1;
        proof {
            assert(rest[0] == line@);
            assert(rest.drop_first() =~= lines.skip(i as int));
            assert(out@ =~= before + polyline_bytes(rest[0]));
            assert(out@ + encoded(lines.skip(i as int)) =~= before + encoded(rest));
        }
    }
    assert(encoded(lines.skip(i as int)) =~= Seq::empty());
    assert(out@ =~= encoded(lines));
    out
}

/// Appends the bytes of `points`.
fn encode_points(points: &[HalfPoint], out: &mut Vec<u8>)
    ensures
        final(out)@ == old(out)@ + points_bytes(points@),
{
    let ghost start = out@;
    let mut i: usize = 0;
    assert(out@ =~= start + points_bytes(points@.take(0)));
    while i < points.len()
        invariant
            i <= points@.len(),
            out@ == start + points_bytes(points@.take(i as int)),
        decreases points@.len() - i,
    {
        push_le16(out, points[i].0);
        push_le16(out, points[i].1);
        i = i + 1;
        assert(out@ =~= start + points_bytes(points@.take(i as int)));
    }
    assert(points@.take(i as int) =~= points@);
}

/// Inverse of [`encode_bin`]: the decoded polylines, or `None` on a malformed
/// buffer (truncated header, truncated payload, or a length prefix larger than
/// the bytes that follow).
///
/// Safe to call on untrusted input: a hostile length prefix allocates nothing
/// before it has been checked against the remaining bytes.
pub fn decode_bin(bytes: &[u8]) -> (r: Option<Vec<Vec<HalfPoint>>>)
    ensures
        match r {
            Some(lines) => decoded(bytes@) == Some(rows(lines@)),
            None => decoded(bytes@) is None,
        },
{
    let mut polylines: Vec<Vec<HalfPoint>> = Vec::new();
    let mut off: usize = 0;
    assert(bytes@.skip(0) =~= bytes@);
    assert(forall|rest: Seq<Seq<HalfPoint>>| #[trigger] (rows(polylines@) + rest) =~= rest);
    while off < bytes.len()
        invariant
            off <= bytes@.len(),
            match decoded(bytes@.skip(off as int)) {
                Some(rest) => decoded(bytes@) == Some(rows(polylines@) + rest),
                None => decoded(bytes@) is None,
            },
        decreases bytes@.len() - off,
    {
        let ghost here = bytes@.skip(off as int);
        if bytes.len() - off < 4 {
            return None;
        }
        let count = read_le32(bytes, off) as usize;
        assert(le32_at(here, 0) == count);
        off = off + 4;
        if count > (bytes.len() - off) / 4 {
            return None;
        }
        let polyline = decode_points(bytes, off, count);
        off = off + count * 4;
        let ghost done = rows(polylines@);
        polylines.push(polyline);
        proof {
            assert(here.skip(4 + 4 * count) =~= bytes@.skip(off as int));
            assert(points_at(here, 4, count as nat) =~= polyline@);
            assert(rows(polylines@) =~= done.push(polyline@));
            if let Some(rest) = decoded(bytes@.skip(off as int)) {
                assert(rows(polylines@) + rest =~= done + (seq![polyline@] + rest));
            }
        }
    }
    assert(bytes@.skip(off as int) =~= Seq::empty());
    assert(rows(polylines@) + Seq::empty() =~= rows(polylines@));
    Some(polylines)
}

/// Reads `count` points at `pos`.
fn decode_points(src: &[u8], pos: usize, count: usize) -> (r: Vec<HalfPoint>)
    requires
        pos + 4 * count <= src@.len(),
    ensures
        r@ == points_at(src@, pos as int, count as nat),
{
    let total = src.len();
    let mut points: Vec<HalfPoint> = Vec::new();
    let mut i: usize = 0;
    while i < count
        invariant
            i <= count,
            pos + 4 * count <= total,
            total == src@.len(),
            points@ == points_at(src@, pos as int, i as nat),
        decreases count - i,
    {
        let off = pos + i * 4;
        points.push((read_le16(src, off), read_le16(src, off + 2)));
        i = i + 1;
        assert(points@ =~= points_at(src@, pos as int, i as nat));
    }
    points
}

/// A point is read back from its four bytes.
proof fn lemma_point_round_trip(p: HalfPoint, s: Seq<u8>, pos: int)
    requires
        0 <= pos,
        pos + 4 <= s.len(),
        s.subrange(pos, pos + 4) == point_bytes(p),
    ensures
        le16_at(s, pos) == p.0,
        le16_at(s, pos + 2) == p.1,
{
    let four = s.subrange(pos, pos + 4);
    assert(s.subrange(pos, pos + 2) =~= four.subrange(0, 2));
    assert(four.subrange(0, 2) =~= le16(p.0));
    assert(s.subrange(pos + 2, pos + 4) =~= four.subrange(2, 4));
    assert(four.subrange(2, 4) =~= le16(p.1));
    le16_round_trip(p.0, s, pos);
    le16_round_trip(p.1, s, pos + 2);
}

/// Where the bytes of a point stand among those of its polyline.
proof fn lemma_point_stands(points: Seq<HalfPoint>, k: int)
    requires
        0 <= k < points.len(),
    ensures
        points_bytes(points).subrange(4 * k, 4 * k + 4) == point_bytes(points[k]),
{
    let bytes = points_bytes(points);
    assert forall|j: int| 0 <= j < 4 implies bytes[4 * k + j] == point_bytes(points[k])[j] by {
        assert((4 * k + j) / 4 == k && (4 * k + j) % 4 == j);
    }
    assert(bytes.subrange(4 * k, 4 * k + 4) =~= point_bytes(points[k]));
}

/// The points of a polyline are read back from its bytes, whatever follows.
proof fn lemma_points_round_trip(points: Seq<HalfPoint>, rest: Seq<u8>)
    ensures
        points_at(polyline_bytes(points) + rest, 4, points.len()) == points,
{
    let s = polyline_bytes(points) + rest;
    let bytes = points_bytes(points);
    assert forall|k: int| 0 <= k < points.len() implies points_at(s, 4, points.len())[k]
        == points[k] by {
        lemma_point_stands(points, k);
        assert(s.subrange(4 + 4 * k, 4 + 4 * k + 4) =~= bytes.subrange(4 * k, 4 * k + 4));
        lemma_point_round_trip(points[k], s, 4 + 4 * k);
    }
    assert(points_at(s, 4, points.len()) =~= points);
}

/// What was encoded is decoded again, as long as the point count of each
/// polyline fits the 32 bits that the format has for it.
pub proof fn decode_inverts_encode(lines: Seq<Seq<HalfPoint>>)
    requires
        forall|i: int| 0 <= i < lines.len() ==> (#[trigger] lines[i]).len() <= u32::MAX,
    ensures
        decoded(encoded(lines)) == Some(lines),
    decreases lines.len(),
{
    if lines.len() > 0 {
        let first = lines[0];
        let rest = lines.drop_first();
        let s = encoded(lines);
        assert forall|i: int| 0 <= i < rest.len() implies (#[trigger] rest[i]).len()
            <= u32::MAX by {
            assert(rest[i] == lines[i + 1]);
        }
        decode_inverts_encode(rest);
        assert(s.subrange(0, 4) =~= le32(first.len() as u32));
        le32_round_trip(first.len() as u32, s, 0);
        lemma_points_round_trip(first, encoded(rest));
        assert(s.skip((4 + 4 * first.len()) as int) =~= encoded(rest));
        assert(seq![first] + rest =~= lines);
    } else {
        assert(lines =~= Seq::empty());
    }
}

/// The format has one encoding for each value: bytes that decode are the bytes
/// that the decoded polylines encode to.
pub proof fn encode_inverts_decode(s: Seq<u8>)
    requires
        decoded(s) is Some,
    ensures
        encoded(decoded(s)->0) == s,
    decreases s.len(),
{
    let lines = decoded(s)->0;
    if s.len() == 0 {
        assert(s =~= Seq::empty());
    } else {
        let count = le32_at(s, 0);
        let tail = s.skip(4 + 4 * count);
        let points = points_at(s, 4, count as nat);
        encode_inverts_decode(tail);
        assert(lines.drop_first() =~= decoded(tail)->0);
        assert(lines[0] == points);
        le32_of_read(s, 0);
        assert forall|i: int| 0 <= i < 4 * count implies points_bytes(points)[i] == s[4 + i] by {
            let k = i / 4;
            le16_of_read(s, 4 + 4 * k);
            le16_of_read(s, 4 + 4 * k + 2);
            let a = s.subrange(4 + 4 * k, 4 + 4 * k + 2);
            let b = s.subrange(4 + 4 * k + 2, 4 + 4 * k + 4);
            assert(point_bytes(points[k]) == a + b);
            assert((a + b)[i % 4] == s[4 + 4 * k + i % 4]);
        }
        assert(polyline_bytes(points) + tail =~= s) by {
            assert(s.subrange(0, 4) == le32(points.len() as u32));
            assert forall|i: int| 0 <= i < 4 implies s[i] == le32(points.len() as u32)[i] by {
                assert(s.subrange(0, 4)[i] == s[i]);
            }
        }
    }
}

/// Dumps can be joined: the bytes of two lists of polylines one behind the
/// other are the bytes of the joined list.
pub proof fn encode_joins(first: Seq<Seq<HalfPoint>>, second: Seq<Seq<HalfPoint>>)
    ensures
        encoded(first + second) == encoded(first) + encoded(second),
    decreases first.len(),
{
    if first.len() == 0 {
        assert(first + second =~= second);
        assert(encoded(first) + encoded(second) =~= encoded(second));
    } else {
        encode_joins(first.drop_first(), second);
        assert((first + second).drop_first() =~= first.drop_first() + second);
        assert((first + second)[0] == first[0]);
        assert(encoded(first + second) =~= encoded(first) + encoded(second));
    }
}

/// The dump of one polyline byte by byte: four bytes point count, then four
/// bytes for each point, x ahead of y, every number lowest byte first.
pub proof fn a_polyline_byte_by_byte(line: Seq<HalfPoint>, k: int)
    requires
        line.len() <= u32::MAX,
    ensures
        encoded(Seq::empty()) == Seq::<u8>::empty(),
        ({
            let s = encoded(seq![line]);
            &&& s.len() == 4 + 4 * line.len()
            &&& s[0] + s[1] * 0x100 + s[2] * 0x1_0000 + s[3] * 0x100_0000 == line.len()
            &&& 0 <= k < line.len() ==> s[4 + 4 * k] + s[5 + 4 * k] * 0x100 == line[k].0 && s[6 + 4
                * k] + s[7 + 4 * k] * 0x100 == line[k].1
        }),
{
    let one = seq![line];
    let s = encoded(one);
    assert(one.drop_first() =~= Seq::empty());
    assert(encoded(one.drop_first()) =~= Seq::empty());
    assert(s =~= polyline_bytes(line));
    assert(s.subrange(0, 4) =~= le32(line.len() as u32));
    le32_round_trip(line.len() as u32, s, 0);
    if 0 <= k < line.len() {
        lemma_point_stands(line, k);
        assert(s.subrange(4 + 4 * k, 4 + 4 * k + 4) =~= points_bytes(line).subrange(
            4 * k,
            4 * k + 4,
        ));
        lemma_point_round_trip(line[k], s, 4 + 4 * k);
    }
}

/// The rows of a sequence of vectors are what each of them holds.
pub proof fn rows_are_what_vectors_hold<T>(v: Seq<Vec<T>>, i: int)
    requires
        0 <= i < v.len(),
    ensures
        rows(v).len() == v.len(),
        rows(v)[i] == v[i]@,
{
}

/// Bytes decode to the polylines that encode to them, and to nothing where
/// there are none: a buffer is refused exactly where no polylines, each of at
/// most `u32::MAX` points, are dumped as it.
pub proof fn malformed_buffers_are_refused(s: Seq<u8>)
    ensures
        decoded(s) is Some <==> exists|lines: Seq<Seq<HalfPoint>>|
            (forall|i: int| 0 <= i < lines.len() ==> (#[trigger] lines[i]).len() <= u32::MAX) && s
                == #[trigger] encoded(lines),
    decreases s.len(),
{
    if decoded(s) is Some {
        let lines = decoded(s)->0;
        encode_inverts_decode(s);
        lemma_decoded_lines_are_short(s);
        assert(s == encoded(lines));
    }
    if exists|lines: Seq<Seq<HalfPoint>>|
        (forall|i: int| 0 <= i < lines.len() ==> (#[trigger] lines[i]).len() <= u32::MAX) && s
            == #[trigger] encoded(lines) {
        let lines = choose|lines: Seq<Seq<HalfPoint>>|
            (forall|i: int| 0 <= i < lines.len() ==> (#[trigger] lines[i]).len() <= u32::MAX) && s
                == #[trigger] encoded(lines);
        decode_inverts_encode(lines);
    }
}

/// The point count of a decoded polyline was read from 32 bits.
proof fn lemma_decoded_lines_are_short(s: Seq<u8>)
    requires
        decoded(s) is Some,
    ensures
        forall|i: int|
            0 <= i < (decoded(s)->0).len() ==> (#[trigger] (decoded(s)->0)[i]).len() <= u32::MAX,
    decreases s.len(),
{
    if s.len() > 0 {
        let count = le32_at(s, 0);
        let tail = s.skip(4 + 4 * count);
        le32_of_read(s, 0);
        lemma_decoded_lines_are_short(tail);
        let lines = decoded(s)->0;
        assert forall|i: int| 0 <= i < lines.len() implies (#[trigger] lines[i]).len()
            <= u32::MAX by {
            if i > 0 {
                assert(lines[i] == (decoded(tail)->0)[i - 1]);
            }
        }
    }
}

} // verus!
