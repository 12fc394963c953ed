//! Single-channel PNG encoding of tile coverage, and repainting.
//!
//! A tile is [`TILE_SIZE`]² single-byte coverage, which
//! [`encode_indexed_coverage`] turns into a paletted PNG whose one byte per
//! pixel IS the coverage. Because the color lives entirely in that palette,
//! [`recolor_indexed_png`] repaints an already-encoded tile by rewriting 768
//! bytes: no re-render and no re-compression.
use crate::bytes::read_be32;
use crate::crc::crc32;
use crate::png_chunks::{
    chain_is_whole, chunk, find_palette, iend, idat, ihdr, indexed_header, plte, recolored, repeated, signature,
    trns, with_palette,
};
use crate::png_laws::{
    a_reader_finds_the_coverage, a_reader_shows_the_coverage, data_of, shown,
};
use crate::repaint::{encoded_tile_has_one_color, palette_lies_in_file};
use crate::track::Polyline;
use crate::TILE_SIZE;
use vstd::prelude::*;

verus! {

/// One tile to rasterize: its `(x, y)` key and its tile-local polylines.
pub struct TileJob<'a> {
    /// Tile column at the target zoom.
    pub x: u32,
    /// Tile row at the target zoom.
    pub y: u32,
    /// Polylines in tile-local pixel coords, as
    /// [`bucketize_track`](crate::track::bucketize_track) emits.
    pub polylines: &'a [Polyline],
}

/// A rendered tile: the same key, plus [`TILE_SIZE`]² single-byte coverage
/// values (unioned stroke alpha, `0..=255`).
///
/// The color is applied later by the indexed-PNG palette, so this feeds
/// [`encode_indexed_coverage`] directly.
pub struct RenderedTile {
    /// Tile column, copied from the [`TileJob`].
    pub x: u32,
    /// Tile row, copied from the [`TileJob`].
    pub y: u32,
    /// `TILE_SIZE * TILE_SIZE` coverage bytes, row-major.
    pub coverage: Vec<u8>,
}

/// Default track color, and the palette every [`encode_indexed_coverage`]
/// tile carries.
pub const DEFAULT_RGB: (u8, u8, u8) = (0x00, 0x7A, 0xFF);

/// Number of coverage bytes of one tile.
pub open spec fn tile_area() -> nat {
    (TILE_SIZE * TILE_SIZE) as nat
}

/// The identity alpha table: palette entry `a` has alpha `a`.
pub open spec fn alpha_ramp() -> Seq<u8> {
    Seq::new(256, |a: int| a as u8)
}

/// The file that a coverage tile is encoded as: pixel bytes that are the
/// coverage, 256 palette entries that are all `rgb`, and entry `a` has alpha
/// `a`.
pub open spec fn encoded_tile(coverage: Seq<u8>, rgb: (u8, u8, u8)) -> Seq<u8> {
    indexed_png(
        TILE_SIZE,
        TILE_SIZE,
        repeated(rgb, 768),
        alpha_ramp(),
        zlib_pixels(TILE_SIZE, TILE_SIZE, coverage),
    )
}

/// A PNG of palette indices, chunk by chunk, around a zlib stream of pixels.
pub open spec fn indexed_png(
    width: u32,
    height: u32,
    palette: Seq<u8>,
    alphas: Seq<u8>,
    stream: Seq<u8>,
) -> Seq<u8> {
    signature() + chunk(ihdr(), indexed_header(width, height)) + chunk(plte(), palette) + chunk(
        trns(),
        alphas,
    ) + chunk(idat(), stream) + chunk(iend(), Seq::empty())
}

/// The zlib stream of filtered rows that `png::Writer::write_image_data` makes
/// of 8-bit palette indices under `png::Compression::Fast`.
pub uninterp spec fn zlib_pixels(width: u32, height: u32, pixels: Seq<u8>) -> Seq<u8>;

/// Writes a PNG of 8-bit palette indices with `png::Encoder`: its
/// `write_header` writes the signature and the chunks `IHDR`, `PLTE` and
/// `tRNS`, `write_image_data` one `IDAT`, and dropping the writer `IEND`. The
/// stream inside `IDAT` is named, not described: it depends on the size and
/// the indices alone. Filtering and deflating are lossless: of an image of this
/// size no other indices are written as the same file. A stream that would be
/// longer than the rows stored as they are gives way to those, so the file is
/// little longer than its pixels.
#[verifier::external_body]
fn write_indexed_png(
    width: u32,
    height: u32,
    palette: &[u8],
    alphas: &[u8],
    pixels: &[u8],
) -> (out: Vec<u8>)
    requires
        0 < width <= 4096,
        0 < height <= 4096,
        palette@.len() <= 768,
        alphas@.len() <= 256,
        pixels@.len() == width * height,
    ensures
        out@ == indexed_png(
            width,
            height,
            palette@,
            alphas@,
            zlib_pixels(width, height, pixels@),
        ),
        forall|other: Seq<u8>|
            other.len() == pixels@.len() && out@ == #[trigger] indexed_png(
                width,
                height,
                palette@,
                alphas@,
                zlib_pixels(width, height, other),
            ) ==> other == pixels@,
        out@.len() <= u32::MAX,
{
    let mut out = Vec::new();
    {
        let mut enc = png::Encoder::new(&mut out, width, height);
        enc.set_color(png::ColorType::Indexed);
        enc.set_depth(png::BitDepth::Eight);
        enc.set_palette(palette);
        enc.set_trns(alphas);
        enc.set_compression(png::Compression::Fast);
        let mut w = enc.write_header().unwrap();
        w.write_image_data(pixels).unwrap();
    }
    out
}

/// Encodes a [`TILE_SIZE`]² single-channel coverage tile as an indexed PNG.
///
/// Paints the tracks in the default blue; see [`encode_indexed_coverage_rgb`]
/// to pick the color.
pub fn encode_indexed_coverage(coverage: &[u8]) -> (r: Vec<u8>)
    requires
        coverage@.len() == tile_area(),
    ensures
        r@ == encoded_tile(coverage@, DEFAULT_RGB),
        forall|other: Seq<u8>, color: (u8, u8, u8)|
            other.len() == tile_area() && r@ == #[trigger] encoded_tile(other, color) ==> other
                == coverage@ && color == DEFAULT_RGB,
        r@.len() <= u32::MAX,
        data_of(r@, 8, seq![0x49u8, 0x44, 0x41, 0x54]) == Some(zlib_pixels(512, 512, coverage@)),
        forall|k: int|
            0 <= k < 512 * 512 ==> #[trigger] shown(r@, k) == (DEFAULT_RGB.0, DEFAULT_RGB.1, DEFAULT_RGB.2, coverage@[k]),
{
    encode_indexed_coverage_rgb(coverage, DEFAULT_RGB)
}

/// [`encode_indexed_coverage`] in an arbitrary color.
///
/// Every track pixel is `rgb` with `alpha = coverage`, so the one coverage byte
/// per pixel carries all information: the pixel byte IS the coverage, the
/// palette has 256 entries that are all `rgb`, and `tRNS` is the identity.
///
/// The color therefore lives in the palette only, which is what lets
/// [`recolor_indexed_png`] repaint a finished tile without touching its pixels.
///
/// A reader of the file shows `rgb` with alpha `coverage[k]` at pixel `k`, and
/// the file tells its tile: no other coverage, and no other color, is encoded as
/// the same bytes.
pub fn encode_indexed_coverage_rgb(coverage: &[u8], rgb: (u8, u8, u8)) -> (r: Vec<u8>)
    requires
        coverage@.len() == tile_area(),
    ensures
        r@ == encoded_tile(coverage@, rgb),
        forall|other: Seq<u8>, color: (u8, u8, u8)|
            other.len() == tile_area() && r@ == #[trigger] encoded_tile(other, color) ==> other
                == coverage@ && color == rgb,
        r@.len() <= u32::MAX,
        data_of(r@, 8, seq![0x49u8, 0x44, 0x41, 0x54]) == Some(zlib_pixels(512, 512, coverage@)),
        forall|k: int|
            0 <= k < 512 * 512 ==> #[trigger] shown(r@, k) == (rgb.0, rgb.1, rgb.2, coverage@[k]),
{
    let mut palette: Vec<u8> = Vec::with_capacity(768);
    let mut alphas: Vec<u8> = Vec::with_capacity(256);
    let mut a: u32 = 0;
    while a < 256
        invariant
            a <= 256,
            palette@ == repeated(rgb, (a * 3) as nat),
            alphas@ == alpha_ramp().take(a as int),
        decreases 256 - a,
    {
        palette.push(rgb.0);
        palette.push(rgb.1);
        palette.push(rgb.2);
        alphas.push(a as u8);
        a = a + 1;
        assert(palette@ =~= repeated(rgb, (a * 3) as nat));
        assert(alphas@ =~= alpha_ramp().take(a as int));
    }
    assert(alphas@ =~= alpha_ramp());
    let out = write_indexed_png(
        TILE_SIZE,
        TILE_SIZE,
        palette.as_slice(),
        alphas.as_slice(),
        coverage,
    );
    proof {
        assert forall|other: Seq<u8>, color: (u8, u8, u8)|
            other.len() == tile_area() && out@ == #[trigger] encoded_tile(other, color) implies other
            == coverage@ && color == rgb by {
            encoded_tile_has_one_color(coverage@, rgb, other, color);
            assert(out@ == indexed_png(
                TILE_SIZE,
                TILE_SIZE,
                palette@,
                alphas@,
                zlib_pixels(TILE_SIZE, TILE_SIZE, other),
            ));
        }
        assert forall|other: Seq<u8>|
            other.len() == 512 * 512 && #[trigger] zlib_pixels(512, 512, other) == zlib_pixels(
                512,
                512,
                coverage@,
            ) implies other == coverage@ by {
            assert(out@ == indexed_png(
                TILE_SIZE,
                TILE_SIZE,
                palette@,
                alphas@,
                zlib_pixels(TILE_SIZE, TILE_SIZE, other),
            ));
        }
        a_reader_finds_the_coverage(coverage@, rgb);
        assert forall|k: int| 0 <= k < 512 * 512 implies #[trigger] shown(out@, k) == (
            rgb.0,
            rgb.1,
            rgb.2,
            coverage@[k],
        ) by {
            a_reader_shows_the_coverage(coverage@, rgb, k);
        }
    }
    out
}

/// Whether `png` starts with the PNG signature.
fn has_signature(png: &[u8]) -> (r: bool)
    ensures
        r == (png@.len() >= 8 && png@.take(8) == signature()),
{
    if png.len() < 8 {
        return false;
    }
    let r = png[0] == 0x89 && png[1] == 0x50 && png[2] == 0x4E && png[3] == 0x47 && png[4] == 0x0D
        && png[5] == 0x0A && png[6] == 0x1A && png[7] == 0x0A;
    proof {
        let head = png@.take(8);
        if r {
            assert(head =~= signature());
        } else if head == signature() {
            assert(forall|i: int| 0 <= i < 8 ==> head[i] == png@[i]);
        }
    }
    r
}

/// Whether the four type bytes at `pos` are `a`, `b`, `c` and `d`.
fn kind_is(png: &[u8], pos: usize, a: u8, b: u8, c: u8, d: u8) -> (r: bool)
    requires
        pos + 4 <= png@.len(),
    ensures
        r == (png@.subrange(pos as int, pos + 4) == seq![a, b, c, d]),
{
    let r = png[pos] == a && png[pos + 1] == b && png[pos + 2] == c && png[pos + 3] == d;
    proof {
        let kind = png@.subrange(pos as int, pos + 4);
        if r {
            assert(kind =~= seq![a, b, c, d]);
        } else if kind == seq![a, b, c, d] {
            assert(forall|i: int| 0 <= i < 4 ==> kind[i] == png@[pos + i]);
        }
    }
    r
}

/// Walks the chain of chunks from `start` to the palette.
///
/// The chain is walked rather than a fixed offset trusted, so an encoder that
/// emits an extra chunk ahead of the palette cannot corrupt the output. `PLTE`
/// must precede `IDAT`, so reaching the pixels means there is no palette.
fn palette_position(png: &[u8], start: usize) -> (r: Option<(usize, usize)>)
    ensures
        match r {
            Some((data, len)) => find_palette(png@, start as int) == Some((data as int, len as int)),
            None => find_palette(png@, start as int) is None,
        },
{
    let mut pos: usize = start;
    loop
        invariant
            find_palette(png@, start as int) == find_palette(png@, pos as int),
        decreases png@.len() - pos,
    {
        // 4 length + 4 type + 4 CRC per chunk.
        if pos > png.len() || png.len() - pos < 12 {
            return None;
        }
        let len = read_be32(png, pos) as usize;
        let data = pos + 8;
        if len > png.len() - data - 4 {
            return None;
        }
        if kind_is(png, pos + 4, 0x50, 0x4C, 0x54, 0x45) {
            return Some((data, len));
        }
        if kind_is(png, pos + 4, 0x49, 0x44, 0x41, 0x54) || kind_is(
            png,
            pos + 4,
            0x49,
            0x45,
            0x4E,
            0x44,
        ) {
            return None;
        }
        pos = data + len + 4;
    }
}

/// Walks the chain of chunks from `start` on: whether none of them is cut
/// short.
fn rest_is_whole(png: &[u8], start: usize) -> (r: bool)
    ensures
        r == chain_is_whole(png@, start as int),
{
    let mut pos: usize = start;
    loop
        invariant
            chain_is_whole(png@, start as int) == chain_is_whole(png@, pos as int),
        decreases png@.len() - pos,
    {
        if pos > png.len() || png.len() - pos < 12 {
            return pos == png.len();
        }
        let len = read_be32(png, pos) as usize;
        let data = pos + 8;
        if len > png.len() - data - 4 {
            return false;
        }
        if kind_is(png, pos + 4, 0x49, 0x45, 0x4E, 0x44) {
            return true;
        }
        pos = data + len + 4;
    }
}

/// Sets each entry of the palette at `data`, `len` bytes long, to `rgb`.
fn fill_palette(out: &mut Vec<u8>, data: usize, len: usize, rgb: (u8, u8, u8))
    requires
        data + len + 4 <= old(out)@.len() <= usize::MAX,
        len % 3 == 0,
    ensures
        final(out)@ == old(out)@.take(data as int) + repeated(rgb, len as nat) + old(out)@.skip(
            data + len,
        ),
{
    let ghost start = out@;
    let ghost entries = repeated(rgb, len as nat);
    let mut i: usize = 0;
    while i < len
        invariant
            i <= len,
            i % 3 == 0,
            len % 3 == 0,
            data + len + 4 <= start.len() <= usize::MAX,
            out@.len() == start.len(),
            entries == repeated(rgb, len as nat),
            forall|k: int|
                0 <= k < start.len() && !(data <= k < data + i) ==> #[trigger] out@[k] == start[k],
            forall|k: int| data <= k < data + i ==> #[trigger] out@[k] == entries[k - data],
        decreases len - i,
    {
        out.set(data + i, rgb.0);
        out.set(data + i + 1, rgb.1);
        out.set(data + i + 2, rgb.2);
        i = i + 3;
    }
    assert(out@ =~= start.take(data as int) + entries + start.skip(data + len));
}

/// Repaints a tile produced by [`encode_indexed_coverage`] or
/// [`encode_indexed_coverage_rgb`]: the same PNG with every palette entry set
/// to `rgb`.
///
/// Coverage lives in the pixel bytes and opacity in `tRNS`, so only `PLTE`
/// changes: its bytes and a fresh CRC, with the compressed `IDAT` copied
/// verbatim.
///
/// `None` when the input is not a palette PNG (no `PLTE` before `IDAT`, or a
/// truncated chunk chain, ahead of the palette or behind it), never for a tile
/// this module encoded.
pub fn recolor_indexed_png(png: &[u8], rgb: (u8, u8, u8)) -> (r: Option<Vec<u8>>)
    ensures
        match r {
            Some(out) => recolored(png@, rgb) == Some(out@),
            None => recolored(png@, rgb) is None,
        },
{
    if !has_signature(png) {
        return None;
    }
    let (data, len) = match palette_position(png, 8) {
        Some(found) => found,
        None => return None,
    };
    if len == 0 || len % 3 != 0 {
        return None;
    }
    proof {
        palette_lies_in_file(png@, 8);
    }
    let end = png.len();
    assert(data + len + 4 <= end);
    if !rest_is_whole(png, data + len + 4) {
        return None;
    }
    let mut out = vstd::slice::slice_to_vec(png);
    fill_palette(&mut out, data, len, rgb);
    // A chunk's CRC covers its type bytes as well as its data.
    let crc = crc32(vstd::slice::slice_subrange(out.as_slice(), data - 4, data + len));
    proof {
        let entries = repeated(rgb, len as nat);
        assert(png@.subrange(data - 4, data as int) == plte());
        assert(out@.subrange(data - 4, data + len) =~= plte() + entries) by {
            assert forall|k: int| 0 <= k < 4 implies out@[data - 4 + k] == plte()[k] by {
                assert(png@.subrange(data - 4, data as int)[k] == png@[data - 4 + k]);
            }
        }
    }
    out.set(data + len, (crc / 0x100_0000) as u8);
    out.set(data + len + 1, (crc / 0x1_0000 % 0x100) as u8);
    out.set(data + len + 2, (crc / 0x100 % 0x100) as u8);
    out.set(data + len + 3, (crc % 0x100) as u8);
    assert(out@ =~= with_palette(png@, data as int, len as int, rgb));
    Some(out)
}

} // verus!
