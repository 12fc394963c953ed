//! What encoding and repainting promise of each other.
use crate::bytes::{be32, be32_at, be32_of_read, be32_round_trip};
use crate::crc::crc32_of;
use crate::png_chunks::{
    chain_is_whole, chunk, find_palette, idat, iend, ihdr, indexed_header, plte, recolored, repeated, signature,
    trns, with_palette,
};
use crate::raster::{alpha_ramp, encoded_tile, indexed_png, zlib_pixels};
use crate::TILE_SIZE;
use vstd::prelude::*;

verus! {

/// Parts of a file, grouped from the other end.
pub proof fn lemma_regroup(
    a: Seq<u8>,
    b: Seq<u8>,
    c: Seq<u8>,
    d: Seq<u8>,
    e: Seq<u8>,
    f: Seq<u8>,
)
    ensures
        a + b + c + d + e + f == a + (b + (c + (d + (e + f)))),
        (a + (b + (c + (d + (e + f))))).skip(a.len() as int) == b + (c + (d + (e + f))),
{
    assert(a + b + c + d + e + f =~= a + (b + (c + (d + (e + f)))));
    assert((a + (b + (c + (d + (e + f))))).skip(a.len() as int) =~= b + (c + (d + (e + f))));
}

/// What a walk reads of a whole chunk at `pos` with `rest` behind it.
pub proof fn lemma_whole_chunk(png: Seq<u8>, pos: int, kind: Seq<u8>, data: Seq<u8>, rest: Seq<u8>)
    requires
        0 <= pos <= png.len(),
        kind.len() == 4,
        data.len() <= u32::MAX,
        png.skip(pos) == chunk(kind, data) + rest,
    ensures
        png.len() == pos + 12 + data.len() + rest.len(),
        be32_at(png, pos) == data.len(),
        png.subrange(pos + 4, pos + 8) == kind,
        png.skip(pos + 12 + data.len()) == rest,
{
    let here = png.skip(pos);
    assert(here.len() == 12 + data.len() + rest.len());
    assert(here.subrange(0, 4) =~= be32(data.len() as u32));
    assert(here.subrange(4, 8) =~= kind);
    assert(here.skip(12 + data.len() as int) =~= rest);
    assert(png.subrange(pos, pos + 4) =~= here.subrange(0, 4));
    assert(png.subrange(pos + 4, pos + 8) =~= here.subrange(4, 8));
    assert(png.skip(pos + 12 + data.len()) =~= here.skip(12 + data.len() as int));
    be32_round_trip(data.len() as u32, png, pos);
}

/// The type bytes of the chunks differ.
proof fn lemma_kinds_differ()
    ensures
        ihdr() != plte(),
        ihdr() != idat(),
        ihdr() != iend(),
        plte() != iend(),
        trns() != iend(),
        idat() != iend(),
{
    assert(ihdr()[1] == 0x48 && plte()[1] == 0x4C && trns()[1] == 0x52 && idat()[1] == 0x44
        && iend()[1] == 0x45);
}

/// The walk over a file that is chunk upon chunk, a header and a palette ahead,
/// stops at the palette; the chunks behind it are whole.
proof fn lemma_walk(png: Seq<u8>, header: Seq<u8>, palette: Seq<u8>, alphas: Seq<u8>, stream: Seq<u8>)
    requires
        png.len() >= 8,
        header.len() == 13,
        palette.len() <= 768,
        alphas.len() <= 256,
        stream.len() <= u32::MAX,
        png.skip(8) == chunk(ihdr(), header) + (chunk(plte(), palette) + (chunk(trns(), alphas) + (
        chunk(idat(), stream) + chunk(iend(), Seq::empty())))),
    ensures
        find_palette(png, 8) == Some((41int, palette.len() as int)),
        chain_is_whole(png, 45 + palette.len() as int),
        forall|n: int|
            png.len() - 12 < n < png.len() ==> !chain_is_whole(#[trigger] png.take(n), 8),
{
    let end = chunk(iend(), Seq::empty());
    let pixels = chunk(idat(), stream) + end;
    let behind = chunk(trns(), alphas) + pixels;
    lemma_whole_chunk(png, 8, ihdr(), header, chunk(plte(), palette) + behind);
    lemma_whole_chunk(png, 33, plte(), palette, behind);
    let pos = 45 + palette.len() as int;
    lemma_whole_chunk(png, pos, trns(), alphas, pixels);
    let last = pos + 12 + alphas.len();
    lemma_whole_chunk(png, last, idat(), stream, end);
    assert(end =~= end + Seq::empty());
    lemma_whole_chunk(png, last + 12 + stream.len(), iend(), Seq::empty(), Seq::empty());
    lemma_kinds_differ();
    assert(find_palette(png, 33) == Some((41int, palette.len() as int)));
    assert(chain_is_whole(png, last + 12 + stream.len()));
    assert(chain_is_whole(png, last));
    assert forall|n: int| png.len() - 12 < n < png.len() implies !chain_is_whole(
        #[trigger] png.take(n),
        8,
    ) by {
        let cut = png.take(n);
        lemma_cut_reads(png, n, 8);
        lemma_cut_reads(png, n, 33);
        lemma_cut_reads(png, n, pos);
        lemma_cut_reads(png, n, last);
        assert(!chain_is_whole(cut, last + 12 + stream.len()));
        assert(!chain_is_whole(cut, last));
        assert(!chain_is_whole(cut, pos));
        assert(!chain_is_whole(cut, 33));
    }
}

/// The length and the type of a chunk that a cut leaves in the file.
proof fn lemma_cut_reads(png: Seq<u8>, n: int, pos: int)
    requires
        0 <= pos,
        pos + 8 <= n <= png.len(),
    ensures
        be32_at(png.take(n), pos) == be32_at(png, pos),
        png.take(n).subrange(pos + 4, pos + 8) == png.subrange(pos + 4, pos + 8),
{
    assert(png.take(n).subrange(pos + 4, pos + 8) =~= png.subrange(pos + 4, pos + 8));
}

/// [`lemma_walk`] of an indexed PNG.
proof fn lemma_walk_of_indexed_png(
    width: u32,
    height: u32,
    palette: Seq<u8>,
    alphas: Seq<u8>,
    stream: Seq<u8>,
)
    requires
        palette.len() <= 768,
        alphas.len() <= 256,
        stream.len() <= u32::MAX,
    ensures
        find_palette(indexed_png(width, height, palette, alphas, stream), 8) == Some(
            (41int, palette.len() as int),
        ),
        chain_is_whole(
            indexed_png(width, height, palette, alphas, stream),
            45 + palette.len() as int,
        ),
        ({
            let png = indexed_png(width, height, palette, alphas, stream);
            forall|n: int|
                png.len() - 12 < n < png.len() ==> !chain_is_whole(#[trigger] png.take(n), 8)
        }),
{
    let header = indexed_header(width, height);
    lemma_regroup(
        signature(),
        chunk(ihdr(), header),
        chunk(plte(), palette),
        chunk(trns(), alphas),
        chunk(idat(), stream),
        chunk(iend(), Seq::empty()),
    );
    assert(signature().len() == 8);
    lemma_walk(
        indexed_png(width, height, palette, alphas, stream),
        header,
        palette,
        alphas,
        stream,
    );
}

/// The stream of an encoded tile is shorter than its file.
pub proof fn lemma_stream_is_shorter(
    width: u32,
    height: u32,
    palette: Seq<u8>,
    alphas: Seq<u8>,
    stream: Seq<u8>,
)
    ensures
        stream.len() <= indexed_png(width, height, palette, alphas, stream).len(),
{
}

/// Repainting an encoded tile lands on exactly the bytes that a direct encode
/// in that color produces. The format has 32 bits for the length of a chunk;
/// no file that an encode gives is longer than they can say.
pub proof fn recolor_matches_direct_encode(
    coverage: Seq<u8>,
    first: (u8, u8, u8),
    second: (u8, u8, u8),
)
    requires
        encoded_tile(coverage, first).len() <= u32::MAX,
    ensures
        recolored(encoded_tile(coverage, first), second) == Some(encoded_tile(coverage, second)),
{
    let stream = zlib_pixels(TILE_SIZE, TILE_SIZE, coverage);
    let palette = repeated(first, 768);
    let before = encoded_tile(coverage, first);
    lemma_stream_is_shorter(TILE_SIZE, TILE_SIZE, palette, alpha_ramp(), stream);
    lemma_walk_of_indexed_png(TILE_SIZE, TILE_SIZE, palette, alpha_ramp(), stream);
    lemma_new_palette(coverage, first, second);
    assert(before.take(8) == signature());
}

/// The chunks ahead of the palette are whole, so that the chain is whole where
/// it is behind the palette.
proof fn lemma_chain_up_to_palette(png: Seq<u8>, pos: int)
    requires
        0 <= pos,
        find_palette(png, pos) is Some,
    ensures
        find_palette(png, pos) matches Some((data, len)) && chain_is_whole(png, pos)
            == chain_is_whole(png, data + len + 4),
    decreases png.len() - pos,
{
    lemma_kinds_differ();
    if png.subrange(pos + 4, pos + 8) != plte() {
        lemma_chain_up_to_palette(png, pos + 8 + be32_at(png, pos) + 4);
    }
}

/// No file with a truncated chunk chain is repainted.
pub proof fn truncated_chains_are_refused(png: Seq<u8>, rgb: (u8, u8, u8))
    requires
        !chain_is_whole(png, 8),
    ensures
        recolored(png, rgb) is None,
{
    if find_palette(png, 8) is Some {
        lemma_chain_up_to_palette(png, 8);
    }
}

/// An encoded tile that was cut in its last chunk is refused, be it by one
/// byte.
pub proof fn a_tile_cut_in_its_last_chunk_is_refused(
    coverage: Seq<u8>,
    rgb: (u8, u8, u8),
    n: int,
    color: (u8, u8, u8),
)
    requires
        encoded_tile(coverage, rgb).len() <= u32::MAX,
        encoded_tile(coverage, rgb).len() - 12 < n < encoded_tile(coverage, rgb).len(),
    ensures
        recolored(encoded_tile(coverage, rgb).take(n), color) is None,
{
    let stream = zlib_pixels(TILE_SIZE, TILE_SIZE, coverage);
    let palette = repeated(rgb, 768);
    lemma_stream_is_shorter(TILE_SIZE, TILE_SIZE, palette, alpha_ramp(), stream);
    lemma_walk_of_indexed_png(TILE_SIZE, TILE_SIZE, palette, alpha_ramp(), stream);
    truncated_chains_are_refused(encoded_tile(coverage, rgb).take(n), color);
}

/// An encoded tile with its palette replaced is the tile encoded in that color.
proof fn lemma_new_palette(coverage: Seq<u8>, first: (u8, u8, u8), second: (u8, u8, u8))
    ensures
        encoded_tile(coverage, first).take(8) == signature(),
        with_palette(encoded_tile(coverage, first), 41, 768, second) == encoded_tile(
            coverage,
            second,
        ),
{
    let before = encoded_tile(coverage, first);
    assert(chunk(ihdr(), indexed_header(TILE_SIZE, TILE_SIZE)).len() == 25);
    assert(before.take(8) =~= signature());
    assert(with_palette(before, 41, 768, second) =~= encoded_tile(coverage, second));
}

/// Files that agree from `pos` on have the same chain of chunks there.
proof fn lemma_chain_depends_on_suffix(first: Seq<u8>, second: Seq<u8>, pos: int)
    requires
        0 <= pos,
        first.len() == second.len(),
        forall|i: int| pos <= i < first.len() ==> first[i] == second[i],
    ensures
        chain_is_whole(first, pos) == chain_is_whole(second, pos),
    decreases first.len() - pos,
{
    if pos + 12 <= first.len() {
        assert(first.subrange(pos + 4, pos + 8) =~= second.subrange(pos + 4, pos + 8));
        let end = pos + 8 + be32_at(first, pos) + 4;
        if end <= first.len() {
            lemma_chain_depends_on_suffix(first, second, end);
        }
    }
}

/// Files that agree up to the data of the palette have it in the same place.
proof fn lemma_palette_depends_on_prefix(first: Seq<u8>, second: Seq<u8>, pos: int, data: int)
    requires
        0 <= pos,
        first.len() == second.len(),
        find_palette(first, pos) matches Some((d, len)) && d == data,
        data <= first.len(),
        first.take(data) == second.take(data),
    ensures
        find_palette(second, pos) == find_palette(first, pos),
    decreases first.len() - pos,
{
    palette_lies_in_file(first, pos);
    assert forall|i: int| 0 <= i < data implies first[i] == second[i] by {
        assert(first.take(data)[i] == first[i]);
        assert(second.take(data)[i] == second[i]);
    }
    assert(first.subrange(pos + 4, pos + 8) =~= second.subrange(pos + 4, pos + 8));
    if first.subrange(pos + 4, pos + 8) != plte() {
        let next = pos + 8 + be32_at(first, pos) + 4;
        palette_lies_in_file(first, next);
        lemma_palette_depends_on_prefix(first, second, next, data);
    }
}

/// The palette that the walk finds lies inside the file, behind its length and
/// type bytes and ahead of its CRC.
pub proof fn palette_lies_in_file(png: Seq<u8>, pos: int)
    requires
        0 <= pos,
    ensures
        find_palette(png, pos) matches Some((data, len)) ==> {
            &&& pos + 8 <= data
            &&& 0 <= len
            &&& data + len + 4 <= png.len()
            &&& png.subrange(data - 4, data) == plte()
            &&& be32_at(png, data - 8) == len
        },
    decreases png.len() - pos,
{
    if pos + 12 <= png.len() {
        let len = be32_at(png, pos);
        if pos + 8 + len + 4 <= png.len() {
            palette_lies_in_file(png, pos + 8 + len + 4);
        }
    }
}

/// Only the palette moves: a repainted file is as long as the one it came
/// from, and differs from it in the palette entries and their CRC alone.
pub proof fn recolor_keeps_all_but_the_palette(png: Seq<u8>, rgb: (u8, u8, u8))
    requires
        recolored(png, rgb) is Some,
    ensures
        ({
            let out = recolored(png, rgb)->0;
            &&& out.len() == png.len()
            &&& find_palette(png, 8) matches Some((data, len)) && forall|i: int|
                0 <= i < png.len() && !(data <= i < data + len + 4) ==> #[trigger] out[i] == png[i]
        }),
{
    palette_lies_in_file(png, 8);
}

/// The palette of a repainted file holds the color in every entry, and the
/// chunk around it carries the CRC of its type and its new data.
pub proof fn recolored_palette_is_well_formed(png: Seq<u8>, rgb: (u8, u8, u8))
    requires
        recolored(png, rgb) is Some,
    ensures
        ({
            let out = recolored(png, rgb)->0;
            &&& find_palette(out, 8) == find_palette(png, 8)
            &&& find_palette(png, 8) matches Some((data, len)) && out.subrange(
                data - 8,
                data + len + 4,
            ) == chunk(plte(), repeated(rgb, len as nat))
        }),
{
    palette_lies_in_file(png, 8);
    let out = recolored(png, rgb)->0;
    let (data, len) = find_palette(png, 8)->0;
    assert(out.take(data) =~= png.take(data));
    lemma_palette_depends_on_prefix(png, out, 8, data);
    let entries = repeated(rgb, len as nat);
    be32_of_read(png, data - 8);
    lemma_splice(png, data, len, entries, be32(crc32_of(plte() + entries)));
    assert(chunk(plte(), entries) =~= be32(len as u32) + plte() + entries + be32(
        crc32_of(plte() + entries),
    ));
}

/// The bytes from the length of a chunk to its end, after its data and its CRC
/// were replaced.
proof fn lemma_splice(png: Seq<u8>, data: int, len: int, entries: Seq<u8>, crc: Seq<u8>)
    requires
        8 <= data,
        0 <= len,
        data + len + 4 <= png.len(),
        entries.len() == len,
        crc.len() == 4,
    ensures
        (png.take(data) + entries + crc + png.skip(data + len + 4)).subrange(
            data - 8,
            data + len + 4,
        ) == png.subrange(data - 8, data - 4) + png.subrange(data - 4, data) + entries + crc,
{
    let out = png.take(data) + entries + crc + png.skip(data + len + 4);
    assert(out.subrange(data - 8, data + len + 4) =~= png.subrange(data - 8, data - 4)
        + png.subrange(data - 4, data) + entries + crc);
}

/// Repainting twice is repainting once in the later color.
pub proof fn recolor_twice_is_recolor_once(
    png: Seq<u8>,
    first: (u8, u8, u8),
    second: (u8, u8, u8),
)
    requires
        recolored(png, first) is Some,
    ensures
        recolored(recolored(png, first)->0, second) == recolored(png, second),
{
    recolored_palette_is_well_formed(png, first);
    palette_lies_in_file(png, 8);
    let once = recolored(png, first)->0;
    let (data, len) = find_palette(png, 8)->0;
    assert(once.take(8) =~= png.take(8));
    lemma_chain_depends_on_suffix(png, once, data + len + 4);
    assert(with_palette(once, data, len, second) =~= with_palette(png, data, len, second));
}

/// The color of an encoded tile can be told from its bytes.
pub proof fn encoded_tile_has_one_color(
    coverage: Seq<u8>,
    rgb: (u8, u8, u8),
    other: Seq<u8>,
    color: (u8, u8, u8),
)
    requires
        encoded_tile(coverage, rgb) == encoded_tile(other, color),
    ensures
        rgb == color,
{
    lemma_first_entry(coverage, rgb);
    lemma_first_entry(other, color);
}

/// Bytes 41 to 43 of an encoded tile are its color.
proof fn lemma_first_entry(coverage: Seq<u8>, rgb: (u8, u8, u8))
    ensures
        encoded_tile(coverage, rgb)[41] == rgb.0,
        encoded_tile(coverage, rgb)[42] == rgb.1,
        encoded_tile(coverage, rgb)[43] == rgb.2,
{
}

/// A pixel of an encoded tile whose coverage is `a` shows `rgb` with alpha `a`:
/// that is what entry `a` of the palette and of the alpha table hold.
pub proof fn coverage_is_the_alpha_of_the_color(rgb: (u8, u8, u8), a: u8)
    ensures
        repeated(rgb, 768).subrange(3 * a, 3 * a + 3) == seq![rgb.0, rgb.1, rgb.2],
        alpha_ramp()[a as int] == a,
{
    assert(repeated(rgb, 768).subrange(3 * a, 3 * a + 3) =~= seq![rgb.0, rgb.1, rgb.2]);
}

} // verus!
