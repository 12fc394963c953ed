//! Encoding and repainting, told by what a reader of the files sees.
use crate::bytes::{be32, be32_round_trip};
use crate::crc::crc32_of;
use crate::png_chunks::{
    chain_is_whole, chunk, find_palette, iend, idat, ihdr, indexed_header, plte, recolored, repeated,
    signature, trns, with_palette,
};
use crate::raster::{alpha_ramp, encoded_tile, indexed_png, zlib_pixels};
use crate::repaint::{
    lemma_regroup, lemma_stream_is_shorter, lemma_whole_chunk, recolor_keeps_all_but_the_palette,
    recolor_matches_direct_encode, truncated_chains_are_refused,
};
use crate::TILE_SIZE;
use vstd::prelude::*;

verus! {

/// The data of the first chunk of a type, as a reader finds it that walks the
/// chunks from `pos` on: four bytes length, highest first, four bytes type, the
/// data, four bytes CRC.
pub open spec fn data_of(png: Seq<u8>, pos: int, kind: Seq<u8>) -> Option<Seq<u8>>
    decreases png.len() - pos,
{
    if pos < 0 || pos + 12 > png.len() {
        None
    } else {
        let len = png[pos] * 0x100_0000 + png[pos + 1] * 0x1_0000 + png[pos + 2] * 0x100 + png[pos
            + 3];
        if pos + 12 + len > png.len() {
            None
        } else if png.subrange(pos + 4, pos + 8) == kind {
            Some(png.subrange(pos + 8, pos + 8 + len))
        } else {
            data_of(png, pos + 12 + len, kind)
        }
    }
}

/// The pixels that a reader gets of a stream: those that the stream is of.
pub open spec fn pixels_of(stream: Seq<u8>) -> Seq<u8> {
    choose|pixels: Seq<u8>|
        pixels.len() == 512 * 512 && #[trigger] zlib_pixels(512, 512, pixels) == stream
}

/// The color and alpha that a reader shows at pixel `k` of a 512x512 indexed
/// file: the palette entry and the alpha entry that the pixel byte names.
pub open spec fn shown(png: Seq<u8>, k: int) -> (u8, u8, u8, u8) {
    let palette = data_of(png, 8, seq![0x50u8, 0x4C, 0x54, 0x45])->0;
    let alphas = data_of(png, 8, seq![0x74u8, 0x52, 0x4E, 0x53])->0;
    let index = pixels_of(data_of(png, 8, seq![0x49u8, 0x44, 0x41, 0x54])->0)[k];
    (palette[3 * index], palette[3 * index + 1], palette[3 * index + 2], alphas[index as int])
}

/// A reader that looks for another type passes a whole chunk; one that looks
/// for its type gets its data.
proof fn lemma_reader_step(
    png: Seq<u8>,
    pos: int,
    kind: Seq<u8>,
    data: Seq<u8>,
    rest: Seq<u8>,
    wanted: Seq<u8>,
)
    requires
        0 <= pos <= png.len(),
        kind.len() == 4,
        data.len() <= u32::MAX,
        png.skip(pos) == chunk(kind, data) + rest,
    ensures
        data_of(png, pos, wanted) == if kind == wanted {
            Some(data)
        } else {
            data_of(png, pos + 12 + data.len(), wanted)
        },
        png.skip(pos + 12 + data.len()) == rest,
        pos + 12 + data.len() <= png.len(),
{
    lemma_whole_chunk(png, pos, kind, data, rest);
    if kind == wanted {
        assert forall|i: int| 0 <= i < data.len() implies png[pos + 8 + i] == data[i] by {
            assert(png.skip(pos)[8 + i] == png[pos + 8 + i]);
        }
        assert(png.subrange(pos + 8, pos + 8 + data.len()) =~= data);
    }
}

/// A reader finds the palette, the alphas and the stream of an indexed PNG.
proof fn lemma_reader_of_indexed_png(
    png: Seq<u8>,
    header: Seq<u8>,
    palette: Seq<u8>,
    alphas: Seq<u8>,
    stream: Seq<u8>,
    wanted: Seq<u8>,
)
    requires
        png.len() >= 8,
        header.len() == 13,
        palette.len() <= 768,
        alphas.len() <= 256,
        stream.len() <= u32::MAX,
        png.skip(8) == chunk(ihdr(), header) + (chunk(plte(), palette) + (chunk(trns(), alphas) + (
        chunk(idat(), stream) + chunk(iend(), Seq::empty())))),
        wanted != ihdr(),
    ensures
        wanted == plte() ==> data_of(png, 8, wanted) == Some(palette),
        wanted == trns() && wanted != plte() ==> data_of(png, 8, wanted) == Some(alphas),
        wanted == idat() && wanted != trns() && wanted != plte() ==> data_of(png, 8, wanted) == Some(
            stream,
        ),
{
    let end = chunk(iend(), Seq::empty());
    let pixels = chunk(idat(), stream) + end;
    let behind = chunk(trns(), alphas) + pixels;
    lemma_reader_step(png, 8, ihdr(), header, chunk(plte(), palette) + behind, wanted);
    lemma_reader_step(png, 33, plte(), palette, behind, wanted);
    let pos = 45 + palette.len() as int;
    lemma_reader_step(png, pos, trns(), alphas, pixels, wanted);
    lemma_reader_step(png, pos + 12 + alphas.len(), idat(), stream, end, wanted);
}

/// What a reader finds in an encoded tile: 256 palette entries that are all the
/// color, the identity as alphas, and the stream of the coverage itself.
pub proof fn a_reader_finds_the_coverage(coverage: Seq<u8>, rgb: (u8, u8, u8))
    requires
        encoded_tile(coverage, rgb).len() <= u32::MAX,
    ensures
        ({
            let png = encoded_tile(coverage, rgb);
            &&& png.take(8) == seq![0x89u8, 0x50, 0x4E, 0x47, 0x0D, 0x0A, 0x1A, 0x0A]
            &&& data_of(png, 8, seq![0x49u8, 0x48, 0x44, 0x52]) == Some(
                seq![0u8, 0, 2, 0, 0, 0, 2, 0, 8, 3, 0, 0, 0],
            )
            &&& data_of(png, 8, seq![0x50u8, 0x4C, 0x54, 0x45]) matches Some(palette)
                && palette.len() == 768 && forall|a: int|
                0 <= a < 256 ==> #[trigger] palette[3 * a] == rgb.0 && palette[3 * a + 1] == rgb.1
                    && palette[3 * a + 2] == rgb.2
            &&& data_of(png, 8, seq![0x74u8, 0x52, 0x4E, 0x53]) matches Some(alphas) && alphas.len()
                == 256 && forall|a: int| 0 <= a < 256 ==> #[trigger] alphas[a] == a
            &&& data_of(png, 8, seq![0x49u8, 0x44, 0x41, 0x54]) == Some(
                zlib_pixels(512, 512, coverage),
            )
        }),
{
    let stream = zlib_pixels(TILE_SIZE, TILE_SIZE, coverage);
    let palette = repeated(rgb, 768);
    let header = indexed_header(TILE_SIZE, TILE_SIZE);
    let png = indexed_png(TILE_SIZE, TILE_SIZE, palette, alpha_ramp(), stream);
    assert(png == encoded_tile(coverage, rgb));
    lemma_stream_is_shorter(TILE_SIZE, TILE_SIZE, palette, alpha_ramp(), stream);
    lemma_regroup(
        signature(),
        chunk(ihdr(), header),
        chunk(plte(), palette),
        chunk(trns(), alpha_ramp()),
        chunk(idat(), stream),
        chunk(iend(), Seq::empty()),
    );
    assert(signature().len() == 8);
    assert(png.take(8) =~= signature());
    lemma_kinds();
    lemma_reader_step(
        png,
        8,
        ihdr(),
        header,
        chunk(plte(), palette) + (chunk(trns(), alpha_ramp()) + (chunk(idat(), stream) + chunk(
            iend(),
            Seq::empty(),
        ))),
        ihdr(),
    );
    assert(header =~= seq![0u8, 0, 2, 0, 0, 0, 2, 0, 8, 3, 0, 0, 0]);
    lemma_reader_of_indexed_png(png, header, palette, alpha_ramp(), stream, plte());
    lemma_reader_of_indexed_png(png, header, palette, alpha_ramp(), stream, trns());
    lemma_reader_of_indexed_png(png, header, palette, alpha_ramp(), stream, idat());
}

/// The type bytes of the chunks differ.
proof fn lemma_kinds()
    ensures
        plte() != ihdr(),
        trns() != ihdr(),
        idat() != ihdr(),
        trns() != plte(),
        idat() != plte(),
        iend() != plte(),
        idat() != trns(),
        idat() != iend(),
{
    assert(ihdr()[1] == 0x48 && plte()[1] == 0x4C && trns()[1] == 0x52 && idat()[1] == 0x44
        && iend()[1] == 0x45);
}

/// The pixel byte IS the coverage: a reader shows the color with alpha
/// `coverage[k]` at pixel `k`, where no other pixels have the stream of the
/// coverage, as holds of every stream that was written.
pub proof fn a_reader_shows_the_coverage(coverage: Seq<u8>, rgb: (u8, u8, u8), k: int)
    requires
        encoded_tile(coverage, rgb).len() <= u32::MAX,
        coverage.len() == 512 * 512,
        forall|other: Seq<u8>|
            other.len() == 512 * 512 && #[trigger] zlib_pixels(512, 512, other) == zlib_pixels(
                512,
                512,
                coverage,
            ) ==> other == coverage,
        0 <= k < 512 * 512,
    ensures
        shown(encoded_tile(coverage, rgb), k) == (rgb.0, rgb.1, rgb.2, coverage[k]),
{
    a_reader_finds_the_coverage(coverage, rgb);
    let stream = zlib_pixels(512, 512, coverage);
    assert(pixels_of(stream) == coverage) by {
        assert(coverage.len() == 512 * 512 && zlib_pixels(512, 512, coverage) == stream);
    }
    let a = coverage[k] as int;
    let palette = data_of(encoded_tile(coverage, rgb), 8, seq![0x50u8, 0x4C, 0x54, 0x45])->0;
    assert(palette[3 * a] == rgb.0);
}

/// Repainting changes the color and nothing else: a reader of a repainted tile
/// shows the new color with the alpha that it showed before, at every pixel.
pub proof fn a_repainted_tile_shows_the_new_color(
    coverage: Seq<u8>,
    first: (u8, u8, u8),
    second: (u8, u8, u8),
    k: int,
)
    requires
        encoded_tile(coverage, first).len() <= u32::MAX,
        coverage.len() == 512 * 512,
        forall|other: Seq<u8>|
            other.len() == 512 * 512 && #[trigger] zlib_pixels(512, 512, other) == zlib_pixels(
                512,
                512,
                coverage,
            ) ==> other == coverage,
        0 <= k < 512 * 512,
    ensures
        recolored(encoded_tile(coverage, first), second) matches Some(png) && shown(png, k) == (
            second.0,
            second.1,
            second.2,
            shown(encoded_tile(coverage, first), k).3,
        ),
{
    recolor_matches_direct_encode(coverage, first, second);
    recolor_keeps_all_but_the_palette(encoded_tile(coverage, first), second);
    a_reader_shows_the_coverage(coverage, first, k);
    a_reader_shows_the_coverage(coverage, second, k);
}

/// A chunk: its type and its data.
pub type Chunk = (Seq<u8>, Seq<u8>);

/// The chunks of a file one behind the other.
pub open spec fn body(chunks: Seq<Chunk>) -> Seq<u8>
    decreases chunks.len(),
{
    if chunks.len() == 0 {
        Seq::empty()
    } else {
        chunk(chunks[0].0, chunks[0].1) + body(chunks.drop_first())
    }
}

/// A file of chunks behind the eight bytes that every PNG starts with.
pub open spec fn file(chunks: Seq<Chunk>) -> Seq<u8> {
    seq![0x89u8, 0x50, 0x4E, 0x47, 0x0D, 0x0A, 0x1A, 0x0A] + body(chunks)
}

/// Whether types have four bytes, and lengths fit the 32 bits that the format
/// has for them.
pub open spec fn valid(chunks: Seq<Chunk>) -> bool {
    forall|i: int|
        0 <= i < chunks.len() ==> (#[trigger] chunks[i]).0.len() == 4 && chunks[i].1.len()
            <= u32::MAX
}

/// Whether a chunk lets the search for the palette go on: it is neither the
/// palette nor the pixels nor the end.
pub open spec fn passes(chunk: Chunk) -> bool {
    &&& chunk.0 != seq![0x50u8, 0x4C, 0x54, 0x45]
    &&& chunk.0 != seq![0x49u8, 0x44, 0x41, 0x54]
    &&& chunk.0 != seq![0x49u8, 0x45, 0x4E, 0x44]
}

/// A chunk byte by byte: the length of its data, highest byte first, its type,
/// its data, and the CRC of type and data, highest byte first.
pub proof fn a_chunk_byte_by_byte(kind: Seq<u8>, data: Seq<u8>)
    requires
        kind.len() == 4,
        data.len() <= u32::MAX,
    ensures
        ({
            let c = chunk(kind, data);
            let n = data.len() as int;
            &&& c.len() == 12 + n
            &&& c[0] * 0x100_0000 + c[1] * 0x1_0000 + c[2] * 0x100 + c[3] == n
            &&& c.subrange(4, 8) == kind
            &&& c.subrange(8, 8 + n) == data
            &&& c[8 + n] * 0x100_0000 + c[9 + n] * 0x1_0000 + c[10 + n] * 0x100 + c[11 + n]
                == crc32_of(kind + data)
        }),
{
    let c = chunk(kind, data);
    let n = data.len() as int;
    assert(c.subrange(0, 4) =~= be32(data.len() as u32));
    assert(c.subrange(4, 8) =~= kind);
    assert(c.subrange(8, 8 + n) =~= data);
    assert(c.subrange(8 + n, 12 + n) =~= be32(crc32_of(kind + data)));
    be32_round_trip(data.len() as u32, c, 0);
    be32_round_trip(crc32_of(kind + data), c, 8 + n);
}

/// Validity of all chunks but the first.
proof fn lemma_valid_rest(chunks: Seq<Chunk>)
    requires
        valid(chunks),
        chunks.len() > 0,
    ensures
        valid(chunks.drop_first()),
        chunks[0].0.len() == 4,
        chunks[0].1.len() <= u32::MAX,
{
    let rest = chunks.drop_first();
    assert forall|i: int| 0 <= i < rest.len() implies (#[trigger] rest[i]).0.len() == 4
        && rest[i].1.len() <= u32::MAX by {
        assert(rest[i] == chunks[i + 1]);
    }
}

/// Whole chunks are a whole chain.
proof fn lemma_whole_chain(png: Seq<u8>, pos: int, chunks: Seq<Chunk>)
    requires
        0 <= pos <= png.len(),
        valid(chunks),
        png.skip(pos) == body(chunks),
    ensures
        chain_is_whole(png, pos),
    decreases chunks.len(),
{
    if chunks.len() > 0 {
        lemma_valid_rest(chunks);
        let (kind, data) = chunks[0];
        let rest = chunks.drop_first();
        lemma_whole_chunk(png, pos, kind, data, body(rest));
        lemma_whole_chain(png, pos + 12 + data.len(), rest);
    } else {
        assert(png.skip(pos).len() == png.len() - pos);
    }
}

/// A walk that passes the first `n` chunks goes on behind them.
proof fn lemma_walk_passes(png: Seq<u8>, pos: int, chunks: Seq<Chunk>, n: int)
    requires
        0 <= pos <= png.len(),
        valid(chunks),
        png.skip(pos) == body(chunks),
        0 <= n <= chunks.len(),
        forall|i: int| 0 <= i < n ==> passes(#[trigger] chunks[i]),
    ensures
        ({
            let next = pos + body(chunks.take(n)).len();
            &&& next <= png.len()
            &&& find_palette(png, pos) == find_palette(png, next)
            &&& png.skip(next) == body(chunks.skip(n))
        }),
    decreases n,
{
    if n == 0 {
        assert(chunks.take(0) =~= Seq::empty());
        assert(chunks.skip(0) =~= chunks);
    } else {
        lemma_valid_rest(chunks);
        let (kind, data) = chunks[0];
        let rest = chunks.drop_first();
        lemma_whole_chunk(png, pos, kind, data, body(rest));
        assert(passes(chunks[0]));
        let next = pos + 12 + data.len();
        assert forall|i: int| 0 <= i < n - 1 implies passes(#[trigger] rest[i]) by {
            assert(rest[i] == chunks[i + 1]);
        }
        lemma_walk_passes(png, next, rest, n - 1);
        assert(chunks.take(n).drop_first() =~= rest.take(n - 1));
        assert(chunks.take(n)[0] == chunks[0]);
        assert(chunk(kind, data).len() == 12 + data.len());
        assert(chunks.skip(n) =~= rest.skip(n - 1));
        assert(find_palette(png, pos) == find_palette(png, next));
    }
}

/// A file starts with its eight bytes, and goes on with its chunks.
proof fn lemma_file(chunks: Seq<Chunk>)
    ensures
        file(chunks).len() == 8 + body(chunks).len(),
        file(chunks).take(8) == signature(),
        file(chunks).skip(8) == body(chunks),
{
    assert(file(chunks).take(8) =~= signature());
    assert(file(chunks).skip(8) =~= body(chunks));
}

/// The chunks before and behind one of them.
proof fn lemma_body_around(chunks: Seq<Chunk>, p: int)
    requires
        0 <= p < chunks.len(),
    ensures
        body(chunks) == body(chunks.take(p)) + chunk(chunks[p].0, chunks[p].1) + body(
            chunks.skip(p + 1),
        ),
    decreases p,
{
    let middle = chunk(chunks[p].0, chunks[p].1);
    if p == 0 {
        assert(chunks.take(0) =~= Seq::empty());
        assert(chunks.skip(1) =~= chunks.drop_first());
        assert(body(chunks) =~= body(chunks.take(0)) + middle + body(chunks.skip(1)));
    } else {
        let rest = chunks.drop_first();
        let first = chunk(chunks[0].0, chunks[0].1);
        lemma_body_around(rest, p - 1);
        assert(rest[p - 1] == chunks[p]);
        assert(chunks.take(p).drop_first() =~= rest.take(p - 1));
        assert(chunks.take(p)[0] == chunks[0]);
        assert(rest.skip(p) =~= chunks.skip(p + 1));
        assert(body(chunks.take(p)) == first + body(rest.take(p - 1)));
        assert(body(chunks) =~= body(chunks.take(p)) + middle + body(chunks.skip(p + 1)));
    }
}

/// Repainting a file whose first palette stands ahead of its pixels gives the
/// same chunks but for that palette, which holds the color in every entry.
pub proof fn repainting_replaces_the_palette(chunks: Seq<Chunk>, p: int, rgb: (u8, u8, u8))
    requires
        valid(chunks),
        0 <= p < chunks.len(),
        forall|i: int| 0 <= i < p ==> passes(#[trigger] chunks[i]),
        chunks[p].0 == seq![0x50u8, 0x4C, 0x54, 0x45],
        chunks[p].1.len() > 0,
        chunks[p].1.len() % 3 == 0,
    ensures
        ({
            let entries = Seq::new(
                chunks[p].1.len(),
                |i: int|
                    if i % 3 == 0 {
                        rgb.0
                    } else if i % 3 == 1 {
                        rgb.1
                    } else {
                        rgb.2
                    },
            );
            recolored(file(chunks), rgb) == Some(
                file(chunks.update(p, (seq![0x50u8, 0x4C, 0x54, 0x45], entries))),
            )
        }),
{
    lemma_palette_found(chunks, p);
    lemma_painted_file(chunks, p, rgb);
    lemma_file(chunks);
    let entries = repeated(rgb, chunks[p].1.len());
    assert(entries =~= Seq::new(
        chunks[p].1.len(),
        |i: int|
            if i % 3 == 0 {
                rgb.0
            } else if i % 3 == 1 {
                rgb.1
            } else {
                rgb.2
            },
    ));
}

/// The walk over a file finds its first palette, with a whole chain behind it.
proof fn lemma_palette_found(chunks: Seq<Chunk>, p: int)
    requires
        valid(chunks),
        0 <= p < chunks.len(),
        forall|i: int| 0 <= i < p ==> passes(#[trigger] chunks[i]),
        chunks[p].0 == plte(),
    ensures
        ({
            let at = 8 + body(chunks.take(p)).len() as int;
            let len = chunks[p].1.len() as int;
            &&& find_palette(file(chunks), 8) == Some((at + 8, len))
            &&& chain_is_whole(file(chunks), at + 12 + len)
        }),
{
    let png = file(chunks);
    let data = chunks[p].1;
    let at = 8 + body(chunks.take(p)).len() as int;
    let rest = chunks.skip(p + 1);
    lemma_file(chunks);
    lemma_walk_passes(png, 8, chunks, p);
    let here = chunks.skip(p);
    assert(here[0] == chunks[p]);
    assert(here.drop_first() =~= rest);
    lemma_whole_chunk(png, at, plte(), data, body(rest));
    assert(valid(rest)) by {
        assert forall|i: int| 0 <= i < rest.len() implies (#[trigger] rest[i]).0.len() == 4
            && rest[i].1.len() <= u32::MAX by {
            assert(rest[i] == chunks[p + 1 + i]);
        }
    }
    lemma_whole_chain(png, at + 12 + data.len(), rest);
}

/// A file with its palette replaced is the file of the chunks with that palette.
proof fn lemma_painted_file(chunks: Seq<Chunk>, p: int, rgb: (u8, u8, u8))
    requires
        0 <= p < chunks.len(),
        chunks[p].0 == plte(),
    ensures
        ({
            let entries = repeated(rgb, chunks[p].1.len());
            with_palette(
                file(chunks),
                16 + body(chunks.take(p)).len() as int,
                chunks[p].1.len() as int,
                rgb,
            ) == file(chunks.update(p, (plte(), entries)))
        }),
{
    let data = chunks[p].1;
    let entries = repeated(rgb, data.len());
    let painted = chunks.update(p, (plte(), entries));
    let head = body(chunks.take(p));
    let tail = body(chunks.skip(p + 1));
    lemma_body_around(chunks, p);
    lemma_body_around(painted, p);
    assert(painted.take(p) =~= chunks.take(p));
    assert(painted.skip(p + 1) =~= chunks.skip(p + 1));
    lemma_painted(file(chunks), head, data, entries, tail);
}

/// Replacing the data of a palette chunk and its CRC.
proof fn lemma_painted(
    png: Seq<u8>,
    head: Seq<u8>,
    data: Seq<u8>,
    entries: Seq<u8>,
    tail: Seq<u8>,
)
    requires
        png == signature() + (head + chunk(plte(), data) + tail),
        entries.len() == data.len(),
    ensures
        png.take(16 + head.len() as int) + entries + be32(crc32_of(plte() + entries)) + png.skip(
            20int + head.len() + data.len(),
        ) == signature() + (head + chunk(plte(), entries) + tail),
{
    let crc = be32(crc32_of(plte() + entries));
    let old_crc = be32(crc32_of(plte() + data));
    let len = be32(data.len() as u32);
    assert(png.take(16 + head.len() as int) =~= signature() + head + len + plte());
    assert(png.skip(20int + head.len() + data.len()) =~= tail);
    assert(signature() + head + len + plte() + entries + crc + tail =~= signature() + (head + (len
        + plte() + entries + crc) + tail));
}

/// A file is refused where it does not start as every PNG does, where the
/// pixels, the end or nothing come before a palette, and where the palette is
/// empty or has part of an entry.
pub proof fn files_without_a_palette_are_refused(
    png: Seq<u8>,
    chunks: Seq<Chunk>,
    n: int,
    rgb: (u8, u8, u8),
)
    requires
        valid(chunks),
        0 <= n <= chunks.len(),
        forall|i: int| 0 <= i < n ==> passes(#[trigger] chunks[i]),
    ensures
        png.len() < 8 ==> recolored(png, rgb) is None,
        png.take(8) != seq![0x89u8, 0x50, 0x4E, 0x47, 0x0D, 0x0A, 0x1A, 0x0A] ==> recolored(
            png,
            rgb,
        ) is None,
        n == chunks.len() || chunks[n].0 == seq![0x49u8, 0x44, 0x41, 0x54] || chunks[n].0
            == seq![0x49u8, 0x45, 0x4E, 0x44] ==> recolored(file(chunks), rgb) is None,
        n < chunks.len() && chunks[n].0 == seq![0x50u8, 0x4C, 0x54, 0x45] && (chunks[n].1.len() == 0
            || chunks[n].1.len() % 3 != 0) ==> recolored(file(chunks), rgb) is None,
{
    let whole = file(chunks);
    lemma_file(chunks);
    lemma_walk_passes(whole, 8, chunks, n);
    let at = 8 + body(chunks.take(n)).len() as int;
    lemma_kinds();
    if n < chunks.len() {
        let here = chunks.skip(n);
        assert(here[0] == chunks[n]);
        let (kind, data) = chunks[n];
        lemma_whole_chunk(whole, at, kind, data, body(here.drop_first()));
    } else {
        assert(chunks.skip(n) =~= Seq::empty());
        assert(whole.skip(at).len() == whole.len() - at);
    }
}

/// A chain that ends inside a chunk is not whole.
proof fn lemma_cut_chain(png: Seq<u8>, pos: int, chunks: Seq<Chunk>, part: Seq<u8>, last: Chunk)
    requires
        0 <= pos <= png.len(),
        valid(chunks),
        forall|i: int| 0 <= i < chunks.len() ==> (#[trigger] chunks[i]).0 != iend(),
        last.0.len() == 4,
        last.1.len() <= u32::MAX,
        0 < part.len() < 12 + last.1.len(),
        part == chunk(last.0, last.1).take(part.len() as int),
        png.skip(pos) == body(chunks) + part,
    ensures
        !chain_is_whole(png, pos),
    decreases chunks.len(),
{
    if chunks.len() == 0 {
        assert(body(chunks) + part =~= part);
        assert(png.len() == pos + part.len());
        if part.len() >= 12 {
            assert(png.subrange(pos, pos + 4) =~= png.skip(pos).subrange(0, 4));
            assert(part.subrange(0, 4) =~= be32(last.1.len() as u32));
            be32_round_trip(last.1.len() as u32, png, pos);
        }
    } else {
        lemma_valid_rest(chunks);
        let (kind, data) = chunks[0];
        let rest = chunks.drop_first();
        assert(body(chunks) + part =~= chunk(kind, data) + (body(rest) + part));
        lemma_whole_chunk(png, pos, kind, data, body(rest) + part);
        assert(chunks[0].0 != iend());
        assert forall|i: int| 0 <= i < rest.len() implies (#[trigger] rest[i]).0 != iend() by {
            assert(rest[i] == chunks[i + 1]);
        }
        lemma_cut_chain(png, pos + 12 + data.len(), rest, part, last);
    }
}

/// A file that was cut inside a chunk, before its end was reached, is refused,
/// wherever its palette stands.
pub proof fn a_file_cut_inside_a_chunk_is_refused(
    chunks: Seq<Chunk>,
    last: Chunk,
    n: int,
    rgb: (u8, u8, u8),
)
    requires
        valid(chunks),
        forall|i: int|
            0 <= i < chunks.len() ==> (#[trigger] chunks[i]).0 != seq![0x49u8, 0x45, 0x4E, 0x44],
        last.0.len() == 4,
        last.1.len() <= u32::MAX,
        0 < n < 12 + last.1.len(),
    ensures
        recolored(file(chunks) + chunk(last.0, last.1).take(n), rgb) is None,
{
    let part = chunk(last.0, last.1).take(n);
    let png = file(chunks) + part;
    assert(chunk(last.0, last.1).len() == 12 + last.1.len());
    assert(png.skip(8) =~= body(chunks) + part);
    lemma_cut_chain(png, 8, chunks, part, last);
    truncated_chains_are_refused(png, rgb);
}

} // verus!
