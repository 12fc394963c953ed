//! Stroking one tile: the path to stroke, and what becomes of its pixels.
use crate::bin_codec::rows;
use crate::ieee::{equal32, same};
use crate::ieee_laws::{single_precision_compares_numbers, value32};
use crate::raster::{encode_indexed_coverage_rgb, encoded_tile, tile_area, DEFAULT_RGB};
use crate::track::{Pixel, Polyline};
use vstd::prelude::*;

verus! {

/// Per-tile stroke style. Color is straight (non-premultiplied) RGBA.
#[derive(Clone, Copy, Debug)]
pub struct TileStyle {
    /// Stroke color, straight (non-premultiplied) RGBA.
    pub color_rgba: (u8, u8, u8, u8),
    /// Stroke width in tile pixels: the bits of a single-precision number.
    pub stroke_width: u32,
    /// Anti-alias stroke edges.
    pub anti_alias: bool,
}

impl PartialEq for TileStyle {
    /// Widths are compared as the numbers that they are.
    fn eq(&self, other: &Self) -> (r: bool) {
        self.color_rgba.0 == other.color_rgba.0 && self.color_rgba.1 == other.color_rgba.1
            && self.color_rgba.2 == other.color_rgba.2 && self.color_rgba.3 == other.color_rgba.3
            && same(self.stroke_width, other.stroke_width) && self.anti_alias == other.anti_alias
    }
}

impl vstd::std_specs::cmp::PartialEqSpecImpl for TileStyle {
    open spec fn obeys_eq_spec() -> bool {
        true
    }

    open spec fn eq_spec(&self, other: &Self) -> bool {
        self.color_rgba == other.color_rgba && equal32(self.stroke_width, other.stroke_width)
            && self.anti_alias == other.anti_alias
    }
}

/// A step of a path.
#[derive(Clone, Copy, Debug)]
pub enum PathOp {
    /// Starts a contour.
    MoveTo(Pixel),
    /// Draws a line from the point before.
    LineTo(Pixel),
}

/// The contour of one polyline.
pub open spec fn contour(line: Seq<Pixel>) -> Seq<PathOp> {
    Seq::new(
        line.len(),
        |i: int|
            if i == 0 {
                PathOp::MoveTo(line[i])
            } else {
                PathOp::LineTo(line[i])
            },
    )
}

/// The contours of polylines one behind the other.
pub open spec fn contours(lines: Seq<Seq<Pixel>>) -> Seq<PathOp>
    decreases lines.len(),
{
    if lines.len() == 0 {
        Seq::empty()
    } else {
        contours(lines.drop_last()) + contour(lines.last())
    }
}

/// The path that strokes the given tile-local polylines.
///
/// A single path accumulates every polyline so overlapping strokes union (one
/// stroke) instead of compositing additively: 10 overlapping passes over the
/// same road look identical to 1.
pub fn tile_path(polylines: &[Polyline]) -> (r: Vec<PathOp>)
    ensures
        r@ == contours(rows(polylines@)),
{
    let mut path: Vec<PathOp> = Vec::new();
    let ghost lines = rows(polylines@);
    let mut i: usize = 0;
    while i < polylines.len()
        invariant
            i <= polylines@.len(),
            lines == rows(polylines@),
            path@ == contours(lines.take(i as int)),
        decreases polylines@.len() - i,
    {
        let line = &polylines[i];
        let ghost before = path@;
        let mut k: usize = 0;
        assert(path@ =~= before + contour(line@).take(0));
        while k < line.len()
            invariant
                k <= line@.len(),
                path@ == before + contour(line@).take(k as int),
            decreases line@.len() - k,
        {
            if k == 0 {
                path.push(PathOp::MoveTo(line[k]));
            } else {
                path.push(PathOp::LineTo(line[k]));
            }
            k = k + 1;
            assert(path@ =~= before + contour(line@).take(k as int));
        }
        i = i + 1;
        proof {
            assert(contour(line@).take(k as int) =~= contour(line@));
            assert(lines.take(i as int).drop_last() =~= lines.take(i - 1));
            assert(lines.take(i as int).last() == line@);
        }
    }
    assert(lines.take(i as int) =~= lines);
    path
}

/// The alpha channel of the RGBA pixels of a tile.
pub open spec fn alpha_channel(rgba: Seq<u8>) -> Seq<u8> {
    Seq::new(tile_area(), |i: int| rgba[4 * i + 3])
}

/// The coverage of a tile that was stroked as RGBA pixels: their alpha channel
/// (opacity already baked in by the paint alpha). The RGB that the pixels carry
/// is discarded; the palette of the PNG applies the color.
pub fn coverage_of(rgba: &[u8]) -> (r: Vec<u8>)
    requires
        rgba@.len() == 4 * tile_area(),
    ensures
        r@ == alpha_channel(rgba@),
        r@.len() == 512 * 512,
        forall|i: int| 0 <= i < 512 * 512 ==> #[trigger] r@[i] == rgba@[4 * i + 3],
{
    let mut coverage: Vec<u8> = Vec::with_capacity(262144);
    let mut i: usize = 0;
    while i < 262144
        invariant
            i <= 262144,
            rgba@.len() == 4 * 262144,
            coverage@ == alpha_channel(rgba@).take(i as int),
        decreases 262144 - i,
    {
        coverage.push(rgba[i * 4 + 3]);
        i = i + 1;
        assert(coverage@ =~= alpha_channel(rgba@).take(i as int));
    }
    assert(coverage@ =~= alpha_channel(rgba@));
    coverage
}

/// The file of a stroked tile: the alpha channel of its pixels in the color of
/// its style. `None` where there is no polyline.
pub open spec fn tile_png(lines: Seq<Seq<Pixel>>, style: TileStyle, rgba: Seq<u8>) -> Option<
    Seq<u8>,
> {
    if lines.len() == 0 {
        None
    } else {
        Some(
            encoded_tile(
                alpha_channel(rgba),
                (style.color_rgba.0, style.color_rgba.1, style.color_rgba.2),
            ),
        )
    }
}

/// The style that a batch strokes its tiles in: the default color, of which
/// only the opacity is left in the coverage.
pub open spec fn batch_style(stroke_width: u32, anti_alias: bool, alpha: u8) -> TileStyle {
    TileStyle {
        color_rgba: (DEFAULT_RGB.0, DEFAULT_RGB.1, DEFAULT_RGB.2, alpha),
        stroke_width,
        anti_alias,
    }
}

/// Whether stroking gives an alpha channel that does not depend on the RGB of
/// the style.
pub open spec fn alpha_ignores_rgb(stroke: spec_fn(Seq<PathOp>, TileStyle) -> Seq<u8>) -> bool {
    forall|path: Seq<PathOp>, a: TileStyle, b: TileStyle|
        #![trigger stroke(path, a), stroke(path, b)]
        a.stroke_width == b.stroke_width && a.anti_alias == b.anti_alias && a.color_rgba.3
            == b.color_rgba.3 ==> alpha_channel(stroke(path, a)) == alpha_channel(stroke(path, b))
}

/// A single tile mixes with batched ones: its file is the one that the coverage
/// which a batch gives on the CPU, with the width, anti-aliasing and opacity of
/// its style, is encoded as in the color of its style. `stroke` is whatever
/// strokes a path, blind to RGB in its alpha channel.
pub proof fn single_tile_matches_batched_tile(
    stroke: spec_fn(Seq<PathOp>, TileStyle) -> Seq<u8>,
    lines: Seq<Seq<Pixel>>,
    style: TileStyle,
)
    requires
        lines.len() > 0,
        alpha_ignores_rgb(stroke),
    ensures
        ({
            let (r, g, b, a) = style.color_rgba;
            let batched = stroke(
                contours(lines),
                batch_style(style.stroke_width, style.anti_alias, a),
            );
            tile_png(lines, style, stroke(contours(lines), style)) == Some(
                encoded_tile(alpha_channel(batched), (r, g, b)),
            )
        }),
{
}

/// Encodes a stroked tile as an indexed-coverage PNG (the same compact format
/// the batched rasterizer emits), in `style`'s color. `rgba` holds the pixels
/// that `polylines` were stroked to, and is not read where there are none.
///
/// `None` if `polylines` is empty, so a tile with no geometry is
/// distinguishable from a blank one.
pub fn render_tile_indexed_png(polylines: &[Polyline], style: &TileStyle, rgba: &[u8]) -> (r:
    Option<Vec<u8>>)
    requires
        polylines@.len() > 0 ==> rgba@.len() == 4 * tile_area(),
    ensures
        match r {
            Some(png) => tile_png(rows(polylines@), *style, rgba@) == Some(png@),
            None => tile_png(rows(polylines@), *style, rgba@) is None,
        },
        r is None <==> polylines@.len() == 0,
        r matches Some(png) ==> exists|coverage: Seq<u8>|
            {
                &&& coverage.len() == 512 * 512
                &&& forall|i: int| 0 <= i < 512 * 512 ==> #[trigger] coverage[i] == rgba@[4 * i + 3]
                &&& png@ == #[trigger] encoded_tile(
                    coverage,
                    (style.color_rgba.0, style.color_rgba.1, style.color_rgba.2),
                )
            },
{
    if polylines.len() == 0 {
        return None;
    }
    let coverage = coverage_of(rgba);
    let (r, g, b, _) = style.color_rgba;
    Some(encode_indexed_coverage_rgb(coverage.as_slice(), (r, g, b)))
}

/// The points of the first `i` polylines.
proof fn lemma_points_before(lines: Seq<Seq<Pixel>>, i: int)
    requires
        0 <= i < lines.len(),
    ensures
        lines.take(i + 1).flatten() == lines.take(i).flatten() + lines[i],
{
    assert(lines.take(i + 1) =~= lines.take(i).push(lines[i]));
    lines.take(i).lemma_flatten_push(lines[i]);
}

/// A path goes on behind what the polylines before drew.
proof fn lemma_path_goes_on(lines: Seq<Seq<Pixel>>, i: int)
    requires
        0 <= i < lines.len(),
    ensures
        contours(lines.take(i + 1)) == contours(lines.take(i)) + contour(lines[i]),
        contours(lines.take(i)).len() == lines.take(i).flatten().len(),
        contours(lines.take(i)).is_prefix_of(contours(lines)),
        contours(lines.take(i + 1)).is_prefix_of(contours(lines)),
    decreases lines.len(),
{
    lemma_step_of_path(lines, i);
    lemma_length_of_path(lines.take(i));
    lemma_prefix_of_path(lines, i);
    lemma_prefix_of_path(lines, i + 1);
}

/// One more polyline is one more contour.
proof fn lemma_step_of_path(lines: Seq<Seq<Pixel>>, i: int)
    requires
        0 <= i < lines.len(),
    ensures
        contours(lines.take(i + 1)) == contours(lines.take(i)) + contour(lines[i]),
{
    assert(lines.take(i + 1).drop_last() =~= lines.take(i));
    assert(lines.take(i + 1).last() == lines[i]);
}

/// A path has a step for each point.
proof fn lemma_length_of_path(lines: Seq<Seq<Pixel>>)
    ensures
        contours(lines).len() == lines.flatten().len(),
    decreases lines.len(),
{
    if lines.len() > 0 {
        lemma_length_of_path(lines.drop_last());
        lemma_points_before(lines, lines.len() - 1);
        assert(lines.take(lines.len() - 1) =~= lines.drop_last());
        assert(lines.take(lines.len() as int) =~= lines);
    }
}

/// The path of fewer polylines is a beginning of that of more.
proof fn lemma_prefix_of_path(lines: Seq<Seq<Pixel>>, i: int)
    requires
        0 <= i <= lines.len(),
    ensures
        contours(lines.take(i)).is_prefix_of(contours(lines)),
    decreases lines.len() - i,
{
    if i < lines.len() {
        lemma_prefix_of_path(lines, i + 1);
        lemma_step_of_path(lines, i);
    } else {
        assert(lines.take(i) =~= lines);
    }
}

/// A path visits every point of every polyline, in order, and nothing else.
/// Polyline `i` stands behind the points of those before it: it starts a
/// contour at its first point, and draws a line to each other point from the
/// point before.
pub proof fn path_draws_every_segment(lines: Seq<Seq<Pixel>>, i: int, k: int)
    requires
        0 <= i < lines.len(),
        0 <= k < lines[i].len(),
    ensures
        contours(lines).len() == lines.flatten().len(),
        ({
            let at = lines.take(i).flatten().len() + k;
            &&& at < contours(lines).len()
            &&& k == 0 ==> contours(lines)[at] == PathOp::MoveTo(lines[i][0])
            &&& k > 0 ==> contours(lines)[at] == PathOp::LineTo(lines[i][k])
            &&& k == 1 ==> contours(lines)[at - 1] == PathOp::MoveTo(lines[i][0])
            &&& k > 1 ==> contours(lines)[at - 1] == PathOp::LineTo(lines[i][k - 1])
        }),
{
    lemma_length_of_path(lines);
    lemma_path_goes_on(lines, i);
    let before = contours(lines.take(i));
    let here = contours(lines.take(i + 1));
    let at = before.len() + k;
    assert(here.len() == before.len() + lines[i].len());
    assert(contours(lines)[at] == here[at]);
    assert(k > 0 ==> contours(lines)[at - 1] == here[at - 1]);
}

/// How many contours a path starts.
pub open spec fn starts(path: Seq<PathOp>) -> nat
    decreases path.len(),
{
    if path.len() == 0 {
        0
    } else {
        starts(path.drop_last()) + (if path.last() is MoveTo {
            1nat
        } else {
            0
        })
    }
}

/// Contours add up.
proof fn lemma_starts_add(first: Seq<PathOp>, second: Seq<PathOp>)
    ensures
        starts(first + second) == starts(first) + starts(second),
    decreases second.len(),
{
    if second.len() == 0 {
        assert(first + second =~= first);
    } else {
        lemma_starts_add(first, second.drop_last());
        assert((first + second).drop_last() =~= first + second.drop_last());
    }
}

/// The beginning of a contour starts once.
proof fn lemma_contour_starts_once(line: Seq<Pixel>, n: int)
    requires
        0 <= n <= line.len(),
    ensures
        starts(contour(line).take(n)) == (if n == 0 {
            0nat
        } else {
            1
        }),
    decreases n,
{
    if n > 0 {
        lemma_contour_starts_once(line, n - 1);
        assert(contour(line).take(n).drop_last() =~= contour(line).take(n - 1));
        assert(contour(line).take(n).last() == contour(line)[n - 1]);
    }
}

/// One more polyline starts one more contour, unless it is empty.
pub proof fn each_polyline_starts_one_contour(lines: Seq<Seq<Pixel>>, line: Seq<Pixel>)
    ensures
        starts(contours(Seq::empty())) == 0,
        starts(contours(lines.push(line))) == starts(contours(lines)) + (if line.len() == 0 {
            0nat
        } else {
            1
        }),
{
    assert(lines.push(line).drop_last() =~= lines);
    assert(lines.push(line).last() == line);
    lemma_starts_add(contours(lines), contour(line));
    lemma_contour_starts_once(line, line.len() as int);
    assert(contour(line).take(line.len() as int) =~= contour(line));
}

/// The coverage of a stroked tile is the fourth byte of each of its pixels.
pub proof fn coverage_is_the_fourth_byte(rgba: Seq<u8>, i: int)
    requires
        0 <= i < 512 * 512,
    ensures
        alpha_channel(rgba).len() == 512 * 512,
        alpha_channel(rgba)[i] == rgba[4 * i + 3],
{
}

/// Styles are equal where their colors, the numbers that their widths are, and
/// their anti-aliasing are.
pub proof fn styles_are_told_by_their_fields(a: TileStyle, b: TileStyle)
    ensures
        vstd::std_specs::cmp::PartialEqSpec::eq_spec(&a, &b) <==> {
            &&& a.color_rgba.0 == b.color_rgba.0
            &&& a.color_rgba.1 == b.color_rgba.1
            &&& a.color_rgba.2 == b.color_rgba.2
            &&& a.color_rgba.3 == b.color_rgba.3
            &&& a.anti_alias == b.anti_alias
            &&& a.stroke_width % 0x8000_0000 <= 0x7F80_0000
            &&& b.stroke_width % 0x8000_0000 <= 0x7F80_0000
            &&& value32(a.stroke_width) == value32(b.stroke_width)
        },
{
    single_precision_compares_numbers(a.stroke_width, b.stroke_width);
}

} // verus!
