//! What packing tiles into render passes promises.
use crate::bin_codec::rows;
use crate::gpu::{
    capped, cell, cell_corner, cell_index, chunk_len, fits, line_primitives, longest_from,
    point_count, primitives, quad_drawn, quads, rows_used, shape_corners, total, vertices, weights,
    Primitive, Sign, CELL, MAX_TEX_DIM, MAX_TILES_PER_BATCH, POINT_BYTES, VERTEX_BYTES,
};
use crate::ieee_laws::{single_precision_compares_numbers, value32};
use crate::raster::TileJob;
use crate::track::Pixel;
use vstd::prelude::*;

verus! {

/// How many of the first `n` segments of these lengths are drawn as quads.
pub open spec fn quad_count(lengths: Seq<u32>, n: int) -> nat
    decreases n,
{
    if n <= 0 {
        0
    } else {
        quad_count(lengths, n - 1) + (if quad_drawn(lengths[n - 1]) {
            1nat
        } else {
            0
        })
    }
}

/// There is one quad for each segment that is long enough, along it, and none
/// for the others.
pub proof fn quads_are_the_long_segments(line: Seq<Pixel>, lengths: Seq<u32>, n: int)
    requires
        n < line.len(),
    ensures
        quads(line, lengths, n).len() == quad_count(lengths, n),
        n >= 0 ==> quad_count(lengths, n) <= n,
        forall|k: int|
            0 <= k < n && quad_drawn(#[trigger] lengths[k]) ==> quads(line, lengths, n).contains(
                Primitive::Quad(line[k], line[k + 1]),
            ),
    decreases n,
{
    if n > 0 {
        quads_are_the_long_segments(line, lengths, n - 1);
        let before = quads(line, lengths, n - 1);
        let now = quads(line, lengths, n);
        assert forall|k: int| 0 <= k < n && quad_drawn(#[trigger] lengths[k]) implies now.contains(
            Primitive::Quad(line[k], line[k + 1]),
        ) by {
            let quad = Primitive::Quad(line[k], line[k + 1]);
            if k < n - 1 {
                assert(before.contains(quad));
                let at = choose|at: int| 0 <= at < before.len() && before[at] == quad;
                assert(now[at] == quad);
            } else {
                assert(now[now.len() - 1] == quad);
            }
        }
    }
}

/// A point that is given twice is drawn as two discs, without a quad between.
pub proof fn a_repeated_point_draws_no_quad(p: Pixel)
    ensures
        line_primitives(seq![p, p], seq![0u32]) == seq![Primitive::Disc(p), Primitive::Disc(p)],
{
    reveal_with_fuel(quads, 2);
    assert(line_primitives(seq![p, p], seq![0u32]) =~= seq![
        Primitive::Disc(p),
        Primitive::Disc(p),
    ]);
}

/// A shape is drawn as two triangles that share an edge: of its six corners
/// the last three repeat two of the first.
pub proof fn triangles_share_an_edge(shape: Primitive)
    ensures
        shape_corners(shape).len() == 6,
        ({
            let c = shape_corners(shape);
            match shape {
                Primitive::Disc(_) => c[3] == c[0] && c[4] == c[2] && c[5] != c[1],
                Primitive::Quad(_, _) => c[3] == c[1] && c[5] == c[2],
            }
        }),
{
}

/// Each shape has six vertices.
proof fn lemma_six_vertices_each(shapes: Seq<Primitive>)
    ensures
        vertices(shapes).len() == 6 * shapes.len(),
    decreases shapes.len(),
{
    if shapes.len() > 0 {
        lemma_six_vertices_each(shapes.drop_last());
    }
}

/// Polylines have at most two shapes for each point.
proof fn lemma_two_shapes_each(lines: Seq<Seq<Pixel>>, lengths: Seq<Seq<u32>>)
    ensures
        primitives(lines, lengths).len() <= 2 * point_count(lines),
    decreases lines.len(),
{
    if lines.len() > 0 {
        lemma_two_shapes_each(lines.drop_last(), lengths);
        let line = lines.last();
        quads_are_the_long_segments(line, lengths[lines.len() - 1], line.len() - 1);
        assert(line_primitives(line, lengths[lines.len() - 1]).len() <= 2 * line.len());
    }
}

/// The vertex bound holds: the vertices that polylines tessellate to never take
/// more bytes than their points account for.
pub proof fn vertex_bound_holds(lines: Seq<Seq<Pixel>>, lengths: Seq<Seq<u32>>)
    ensures
        VERTEX_BYTES * vertices(primitives(lines, lengths)).len() <= POINT_BYTES * point_count(
            lines,
        ),
{
    lemma_six_vertices_each(primitives(lines, lengths));
    lemma_two_shapes_each(lines, lengths);
}

/// Every byte of a used cell lies in the rows that are copied back.
pub proof fn cells_lie_in_used_rows(n: nat, i: nat, k: nat)
    requires
        i < n <= MAX_TILES_PER_BATCH,
        k < CELL * CELL,
    ensures
        cell_index(i, k) < MAX_TEX_DIM * rows_used(n),
        rows_used(n) <= MAX_TEX_DIM,
{
    assert(i / 16 + 1 <= (n + 15) as nat / 16);
    assert(k / 512 < 512);
}

/// Cells do not overlap: a byte of the meta texture belongs to one place of
/// one cell, so no tile reads what another one drew.
pub proof fn cells_are_disjoint(i: nat, k: nat, j: nat, l: nat)
    requires
        i < MAX_TILES_PER_BATCH,
        j < MAX_TILES_PER_BATCH,
        k < CELL * CELL,
        l < CELL * CELL,
        cell_index(i, k) == cell_index(j, l),
    ensures
        i == j,
        k == l,
{
    let (ix, iy) = ((i % 16) as int, (i / 16) as int);
    let (jx, jy) = ((j % 16) as int, (j / 16) as int);
    let (kr, kc) = ((k / 512) as int, (k % 512) as int);
    let (lr, lc) = ((l / 512) as int, (l % 512) as int);
    assert(cell_index(i, k) == (iy * 512 + kr) * 8192 + ix * 512 + kc);
    assert(cell_index(j, l) == (jy * 512 + lr) * 8192 + jx * 512 + lc);
    assert(0 <= ix * 512 + kc < 8192);
    assert(0 <= jx * 512 + lc < 8192);
    assert(iy * 512 + kr == jy * 512 + lr);
    assert(kr < 512 && lr < 512);
}

/// Whatever a pass draws in the other cells, a tile stays as it is.
pub proof fn drawing_in_other_cells_leaves_a_tile(before: Seq<u8>, after: Seq<u8>, i: nat)
    requires
        i < MAX_TILES_PER_BATCH,
        before.len() == after.len(),
        before.len() >= MAX_TEX_DIM * rows_used(i + 1),
        forall|p: int|
            0 <= p < before.len() && #[trigger] before[p] != after[p] ==> exists|j: nat, k: nat|
                j < MAX_TILES_PER_BATCH && j != i && k < CELL * CELL && p == #[trigger] cell_index(
                    j,
                    k,
                ),
    ensures
        cell(before, i) == cell(after, i),
{
    assert forall|k: int| 0 <= k < CELL * CELL implies cell(before, i)[k] == cell(after, i)[k] by {
        let p = cell_index(i, k as nat) as int;
        cells_lie_in_used_rows(i + 1, i, k as nat);
        if before[p] != after[p] {
            let (j, l) = choose|j: nat, l: nat|
                j < MAX_TILES_PER_BATCH && j != i && l < CELL * CELL && p == #[trigger] cell_index(
                    j,
                    l,
                );
            cells_are_disjoint(i, k as nat, j, l);
        }
    }
    assert(cell(before, i) =~= cell(after, i));
}

/// What a fragment of one shape contributes at a pixel of the meta texture, for
/// the tile whose cell has its top-left pixel at `corner`.
pub type Paint = spec_fn(Primitive, (nat, nat), nat, nat) -> u8;

/// The greater of two bytes: what blending leaves of two contributions.
pub open spec fn greater(a: u8, b: u8) -> u8 {
    if a >= b {
        a
    } else {
        b
    }
}

/// Whether pixel `(x, y)` of the meta texture lies in cell `i`. A fragment
/// outside the cell of its tile is discarded.
pub open spec fn in_cell(i: nat, x: nat, y: nat) -> bool {
    let (left, top) = cell_corner(i);
    left <= x < left + CELL && top <= y < top + CELL
}

/// What the shapes of tile `i` leave at a pixel that was clear: the greatest
/// contribution, where the pixel lies in the cell of the tile.
pub open spec fn union(shapes: Seq<Primitive>, paint: Paint, i: nat, x: nat, y: nat) -> u8
    decreases shapes.len(),
{
    if shapes.len() == 0 || !in_cell(i, x, y) {
        0
    } else {
        greater(
            union(shapes.drop_last(), paint, i, x, y),
            paint(shapes.last(), cell_corner(i), x, y),
        )
    }
}

/// What a whole pass leaves at a pixel: the shapes of each tile in turn, each
/// clipped to the cell of its tile and blended with what was there.
pub open spec fn blended(tiles: Seq<Seq<Primitive>>, paint: Paint, x: nat, y: nat) -> u8
    decreases tiles.len(),
{
    if tiles.len() == 0 {
        0
    } else {
        greater(
            blended(tiles.drop_last(), paint, x, y),
            union(tiles.last(), paint, (tiles.len() - 1) as nat, x, y),
        )
    }
}

/// Whether `data` is what a pass over the tiles leaves in the rows that they
/// fill.
pub open spec fn drawn(data: Seq<u8>, tiles: Seq<Seq<Primitive>>, paint: Paint) -> bool {
    &&& tiles.len() <= MAX_TILES_PER_BATCH
    &&& data.len() >= MAX_TEX_DIM * rows_used(tiles.len())
    &&& forall|p: nat|
        p < MAX_TEX_DIM * rows_used(tiles.len()) ==> #[trigger] data[p as int] == blended(
            tiles,
            paint,
            p % MAX_TEX_DIM as nat,
            p / MAX_TEX_DIM as nat,
        )
}

/// Cell `i` alone holds the pixel that byte `k` of it stands for.
proof fn lemma_pixel_is_in_one_cell(i: nat, k: nat, j: nat)
    requires
        i < MAX_TILES_PER_BATCH,
        j < MAX_TILES_PER_BATCH,
        k < CELL * CELL,
    ensures
        in_cell(
            j,
            cell_index(i, k) % MAX_TEX_DIM as nat,
            cell_index(i, k) / MAX_TEX_DIM as nat,
        ) <==> i == j,
{
    let (ix, iy) = ((i % 16) as int, (i / 16) as int);
    let (jx, jy) = ((j % 16) as int, (j / 16) as int);
    let (kr, kc) = ((k / 512) as int, (k % 512) as int);
    assert(kr < 512);
    let p = cell_index(i, k) as int;
    assert(p == (iy * 512 + kr) * 8192 + ix * 512 + kc);
    assert(0 <= ix * 512 + kc < 8192);
    assert(p / 8192 == iy * 512 + kr);
    assert(p % 8192 == ix * 512 + kc);
    assert(cell_corner(j) == ((jx * 512) as nat, (jy * 512) as nat));
}

/// At a pixel of cell `i` a pass leaves what tile `i` draws there, and nothing
/// of the others.
proof fn lemma_blended_is_own(tiles: Seq<Seq<Primitive>>, paint: Paint, i: nat, k: nat)
    requires
        i < MAX_TILES_PER_BATCH,
        tiles.len() <= MAX_TILES_PER_BATCH,
        k < CELL * CELL,
    ensures
        ({
            let (x, y) = (
                cell_index(i, k) % MAX_TEX_DIM as nat,
                cell_index(i, k) / MAX_TEX_DIM as nat,
            );
            blended(tiles, paint, x, y) == if i < tiles.len() {
                union(tiles[i as int], paint, i, x, y)
            } else {
                0
            }
        }),
    decreases tiles.len(),
{
    if tiles.len() > 0 {
        lemma_blended_is_own(tiles.drop_last(), paint, i, k);
        lemma_pixel_is_in_one_cell(i, k, (tiles.len() - 1) as nat);
    }
}

/// Strokes do not bleed: a tile with the same shapes at the same place of two
/// passes has the same coverage, whatever the other tiles draw and wherever
/// their strokes reach.
///
/// A pass is what [`drawn`] says: fragments outside the cell of their tile are
/// discarded, and the others blended by the greater value. How a fragment is
/// shaded is left open.
pub proof fn strokes_do_not_bleed(
    first: Seq<u8>,
    first_tiles: Seq<Seq<Primitive>>,
    second: Seq<u8>,
    second_tiles: Seq<Seq<Primitive>>,
    paint: Paint,
    i: nat,
)
    requires
        i < first_tiles.len(),
        i < second_tiles.len(),
        first_tiles[i as int] == second_tiles[i as int],
        drawn(first, first_tiles, paint),
        drawn(second, second_tiles, paint),
    ensures
        cell(first, i) == cell(second, i),
{
    assert forall|k: int| 0 <= k < CELL * CELL implies cell(first, i)[k] == cell(second, i)[k] by {
        let p = cell_index(i, k as nat);
        cells_lie_in_used_rows(first_tiles.len(), i, k as nat);
        cells_lie_in_used_rows(second_tiles.len(), i, k as nat);
        lemma_blended_is_own(first_tiles, paint, i, k as nat);
        lemma_blended_is_own(second_tiles, paint, i, k as nat);
        assert(first[p as int] == second[p as int]);
    }
    assert(cell(first, i) =~= cell(second, i));
}

/// What two lists of shapes leave together is the greater of what each leaves.
proof fn lemma_union_of_both(
    first: Seq<Primitive>,
    second: Seq<Primitive>,
    paint: Paint,
    i: nat,
    x: nat,
    y: nat,
)
    ensures
        union(first + second, paint, i, x, y) == greater(
            union(first, paint, i, x, y),
            union(second, paint, i, x, y),
        ),
    decreases second.len(),
{
    if second.len() == 0 {
        assert(first + second =~= first);
    } else {
        lemma_union_of_both(first, second.drop_last(), paint, i, x, y);
        assert((first + second).drop_last() =~= first + second.drop_last());
        assert((first + second).last() == second.last());
    }
}

/// The shapes of two lists of polylines stand one behind the other.
pub proof fn shapes_of_both_lists(
    first: Seq<Seq<Pixel>>,
    second: Seq<Seq<Pixel>>,
    first_lengths: Seq<Seq<u32>>,
    second_lengths: Seq<Seq<u32>>,
)
    requires
        first.len() == first_lengths.len(),
        second.len() <= second_lengths.len(),
    ensures
        primitives(first + second, first_lengths + second_lengths) == primitives(
            first,
            first_lengths,
        ) + primitives(second, second_lengths),
    decreases second.len(),
{
    let lines = first + second;
    let lengths = first_lengths + second_lengths;
    if second.len() == 0 {
        assert(lines =~= first);
        lemma_later_lengths_do_not_matter(first, first_lengths, lengths);
        assert(primitives(first, first_lengths) + primitives(second, second_lengths) =~= primitives(
            first,
            first_lengths,
        ));
    } else {
        shapes_of_both_lists(first, second.drop_last(), first_lengths, second_lengths);
        assert(lines.drop_last() =~= first + second.drop_last());
        assert(lines.last() == second.last());
        assert(lengths[lines.len() - 1] == second_lengths[second.len() - 1]);
        assert(primitives(lines, lengths) =~= primitives(first, first_lengths) + primitives(
            second,
            second_lengths,
        ));
    }
}

/// Shapes depend on the lengths of their own polylines alone.
proof fn lemma_later_lengths_do_not_matter(
    lines: Seq<Seq<Pixel>>,
    first: Seq<Seq<u32>>,
    second: Seq<Seq<u32>>,
)
    requires
        forall|i: int| 0 <= i < lines.len() ==> first[i] == second[i],
    ensures
        primitives(lines, first) == primitives(lines, second),
    decreases lines.len(),
{
    if lines.len() > 0 {
        lemma_later_lengths_do_not_matter(lines.drop_last(), first, second);
    }
}

/// Coverage unions, it does not add up: drawing the same polylines once more
/// leaves every pixel as it is.
pub proof fn overlapping_strokes_union(
    lines: Seq<Seq<Pixel>>,
    lengths: Seq<Seq<u32>>,
    paint: Paint,
    i: nat,
    x: nat,
    y: nat,
)
    requires
        lines.len() == lengths.len(),
    ensures
        union(primitives(lines + lines, lengths + lengths), paint, i, x, y) == union(
            primitives(lines, lengths),
            paint,
            i,
            x,
            y,
        ),
{
    let shapes = primitives(lines, lengths);
    shapes_of_both_lists(lines, lines, lengths, lengths);
    lemma_union_of_both(shapes, shapes, paint, i, x, y);
}

/// Weights of a shorter prefix are not more.
proof fn lemma_total_grows(weights: Seq<nat>, j: nat, k: nat)
    requires
        j <= k <= weights.len(),
    ensures
        total(weights.take(j as int)) <= total(weights.take(k as int)),
    decreases k - j,
{
    if j < k {
        lemma_total_grows(weights, j, (k - 1) as nat);
        assert(weights.take(k as int).drop_last() =~= weights.take(k - 1));
    }
}

/// The search ends at a prefix that fits, behind which none does.
proof fn lemma_longest(weights: Seq<nat>, k: nat, max: u64)
    requires
        fits(weights, k, max),
    ensures
        k <= longest_from(weights, k, max),
        fits(weights, longest_from(weights, k, max), max),
        !fits(weights, longest_from(weights, k, max) + 1, max),
    decreases MAX_TILES_PER_BATCH - k,
{
    if fits(weights, k + 1, max) {
        lemma_longest(weights, k + 1, max);
    }
}

/// A chunk is the longest prefix that fits one render pass, and has at least
/// one job, so that a batch makes progress.
pub proof fn chunk_is_longest_that_fits(weights: Seq<nat>, max: u64)
    requires
        weights.len() > 0,
    ensures
        1 <= chunk_len(weights, max) <= weights.len(),
        fits(weights, chunk_len(weights, max), max),
        forall|k: nat| k > chunk_len(weights, max) ==> !#[trigger] fits(weights, k, max),
{
    lemma_longest(weights, 1, max);
    let n = chunk_len(weights, max);
    assert forall|k: nat| k > n implies !#[trigger] fits(weights, k, max) by {
        if fits(weights, k, max) {
            lemma_total_grows(weights, n + 1, k);
        }
    }
}

/// The shapes of a polyline: a disc at each of its points, in order, and behind
/// them a quad along each segment that is long enough, in order. The result
/// tells which segments those are.
pub proof fn a_line_is_discs_and_quads(line: Seq<Pixel>, lengths: Seq<u32>) -> (drawn: Seq<int>)
    ensures
        primitives(Seq::empty(), seq![lengths]).len() == 0,
        primitives(seq![line], seq![lengths]) == line_primitives(line, lengths),
        line_primitives(line, lengths).len() == line.len() + drawn.len(),
        forall|i: int|
            0 <= i < line.len() ==> #[trigger] line_primitives(line, lengths)[i]
                == Primitive::Disc(line[i]),
        forall|a: int|
            0 <= a < drawn.len() ==> {
                &&& 0 <= #[trigger] drawn[a] < line.len() - 1
                &&& quad_drawn(lengths[drawn[a]])
                &&& line_primitives(line, lengths)[line.len() + a] == Primitive::Quad(
                    line[drawn[a]],
                    line[drawn[a] + 1],
                )
            },
        forall|a: int, b: int| 0 <= a < b < drawn.len() ==> drawn[a] < drawn[b],
        forall|k: int|
            0 <= k < line.len() - 1 && quad_drawn(#[trigger] lengths[k]) ==> drawn.contains(k),
{
    let one = seq![line];
    assert(one.drop_last() =~= Seq::empty());
    assert(primitives(one.drop_last(), seq![lengths]) =~= Seq::empty());
    assert(one.last() == line);
    assert(primitives(one, seq![lengths]) =~= line_primitives(line, lengths));
    if line.len() == 0 {
        Seq::empty()
    } else {
        lemma_drawn_segments(line, lengths, line.len() - 1)
    }
}

/// Which of the first `n` segments are drawn.
proof fn lemma_drawn_segments(line: Seq<Pixel>, lengths: Seq<u32>, n: int) -> (drawn: Seq<int>)
    requires
        0 <= n < line.len(),
    ensures
        quads(line, lengths, n).len() == drawn.len(),
        forall|a: int|
            0 <= a < drawn.len() ==> {
                &&& 0 <= #[trigger] drawn[a] < n
                &&& quad_drawn(lengths[drawn[a]])
                &&& quads(line, lengths, n)[a] == Primitive::Quad(
                    line[drawn[a]],
                    line[drawn[a] + 1],
                )
            },
        forall|a: int, b: int| 0 <= a < b < drawn.len() ==> drawn[a] < drawn[b],
        forall|k: int| 0 <= k < n && quad_drawn(#[trigger] lengths[k]) ==> drawn.contains(k),
    decreases n,
{
    if n == 0 {
        Seq::empty()
    } else {
        let before = lemma_drawn_segments(line, lengths, n - 1);
        if quad_drawn(lengths[n - 1]) {
            let drawn = before.push(n - 1);
            assert forall|k: int| 0 <= k < n && quad_drawn(#[trigger] lengths[k]) implies
                drawn.contains(k) by {
                if k < n - 1 {
                    let a = choose|a: int| 0 <= a < before.len() && before[a] == k;
                    assert(drawn[a] == k);
                } else {
                    assert(drawn[before.len() as int] == k);
                }
            }
            drawn
        } else {
            before
        }
    }
}

/// A segment is drawn as a quad unless its length is a number below that which
/// the bits `0x358637BD` encode, the single-precision `1e-6`.
pub proof fn quads_are_drawn_by_length(length: u32)
    ensures
        quad_drawn(length) <==> length % 0x8000_0000 > 0x7F80_0000 || value32(length) >= value32(
            0x3586_37BD,
        ),
{
    single_precision_compares_numbers(length, 0x3586_37BD);
}

/// The six vertices of each shape, in the order of the shapes: of a disc the
/// corners of the square around it, of a quad both sides of both ends; in each
/// case two triangles with one edge in common.
pub proof fn vertices_are_two_triangles_a_shape(shapes: Seq<Primitive>, shape: Primitive)
    ensures
        vertices(Seq::empty()).len() == 0,
        ({
            let all = vertices(shapes.push(shape));
            let n = vertices(shapes).len() as int;
            let six = all.skip(n);
            &&& all.take(n) == vertices(shapes)
            &&& six.len() == 6
            &&& match shape {
                Primitive::Disc(p) => {
                    &&& forall|k: int|
                        0 <= k < 6 ==> (#[trigger] six[k]).at == p && six[k].disc
                    &&& six[0].signs == (Sign::Minus, Sign::Minus)
                    &&& six[1].signs == (Sign::Plus, Sign::Minus)
                    &&& six[2].signs == (Sign::Plus, Sign::Plus)
                    &&& six[3].signs == (Sign::Minus, Sign::Minus)
                    &&& six[4].signs == (Sign::Plus, Sign::Plus)
                    &&& six[5].signs == (Sign::Minus, Sign::Plus)
                },
                Primitive::Quad(a, b) => {
                    &&& forall|k: int|
                        0 <= k < 6 ==> (#[trigger] six[k]).signs.1 is Zero && !six[k].disc
                    &&& six[0].at == a && six[0].signs.0 is Plus
                    &&& six[1].at == a && six[1].signs.0 is Minus
                    &&& six[2].at == b && six[2].signs.0 is Plus
                    &&& six[3].at == a && six[3].signs.0 is Minus
                    &&& six[4].at == b && six[4].signs.0 is Minus
                    &&& six[5].at == b && six[5].signs.0 is Plus
                },
            }
        }),
{
    let all = vertices(shapes.push(shape));
    let n = vertices(shapes).len() as int;
    assert(shapes.push(shape).drop_last() =~= shapes);
    assert(shapes.push(shape).last() == shape);
    assert(all.take(n) =~= vertices(shapes));
    assert(all.skip(n) =~= shape_corners(shape));
}

/// Points of polylines add up.
pub proof fn points_add_up(first: Seq<Seq<Pixel>>, second: Seq<Seq<Pixel>>)
    ensures
        point_count(first + second) == point_count(first) + point_count(second),
        second.len() == 0 ==> point_count(second) == 0,
        second.len() == 1 ==> point_count(second) == second[0].len(),
    decreases second.len(),
{
    if second.len() == 0 {
        assert(first + second =~= first);
    } else {
        points_add_up(first, second.drop_last());
        assert((first + second).drop_last() =~= first + second.drop_last());
        reveal_with_fuel(point_count, 2);
    }
}

/// Weights add up.
pub proof fn weights_add_up(first: Seq<nat>, second: Seq<nat>)
    ensures
        total(first + second) == total(first) + total(second),
        second.len() == 0 ==> total(second) == 0,
        second.len() == 1 ==> total(second) == second[0],
    decreases second.len(),
{
    if second.len() == 0 {
        assert(first + second =~= first);
    } else {
        weights_add_up(first, second.drop_last());
        assert((first + second).drop_last() =~= first + second.drop_last());
        reveal_with_fuel(total, 2);
    }
}

/// The weight of a job is 12 vertices of 32 bytes for each of its points; a
/// weight beyond 64 bits counts as the greatest number of 64 bits.
pub proof fn a_job_weighs_twelve_vertices_a_point(jobs: Seq<TileJob>, i: int, n: nat)
    requires
        0 <= i < jobs.len(),
    ensures
        weights(jobs).len() == jobs.len(),
        weights(jobs)[i] == 12 * 32 * point_count(rows(jobs[i].polylines@)),
        capped(n) == n || (n > 0xFFFF_FFFF_FFFF_FFFF && capped(n) == 0xFFFF_FFFF_FFFF_FFFF),
{
}

/// A chunk is the longest prefix of the jobs with at most 256 tiles and at most
/// `max` bytes of geometry, and has at least one job whatever it weighs.
pub proof fn a_chunk_cannot_be_longer(weights: Seq<nat>, max: u64)
    requires
        weights.len() > 0,
    ensures
        ({
            let n = chunk_len(weights, max);
            &&& 1 <= n <= weights.len()
            &&& n <= 256
            &&& n == 1 || total(weights.take(n as int)) <= max
            &&& n < weights.len() && n < 256 ==> total(weights.take(n as int + 1)) > max
        }),
{
    chunk_is_longest_that_fits(weights, max);
    assert(!fits(weights, chunk_len(weights, max) + 1, max));
}

/// A byte of a tile is the byte of the meta texture at the same row and column
/// of its cell: cells stand 16 to a row, 512 pixels apart, and rows are read
/// top to bottom.
pub proof fn a_tile_is_its_cell_row_by_row(data: Seq<u8>, i: nat, row: int, column: int)
    requires
        i < 256,
        0 <= row < 512,
        0 <= column < 512,
    ensures
        cell(data, i).len() == 512 * 512,
        cell(data, i)[row * 512 + column] == data[(i / 16 * 512 + row) * 8192 + i % 16 * 512
            + column],
        rows_used(i + 1) == (i / 16 + 1) * 512,
{
    assert((row * 512 + column) / 512 == row && (row * 512 + column) % 512 == column);
    assert((i + 16) as nat / 16 == i / 16 + 1);
}

/// Whether fragments are shaded by their place in the cell, wherever the cell
/// is.
pub open spec fn shades_by_place(paint: Paint) -> bool {
    forall|shape: Primitive, i: nat, j: nat, x: nat, y: nat|
        i < 256 && j < 256 && x < 512 && y < 512 ==> #[trigger] paint(
            shape,
            ((i % 16 * 512) as nat, (i / 16 * 512) as nat),
            (i % 16 * 512 + x) as nat,
            (i / 16 * 512 + y) as nat,
        ) == #[trigger] paint(
            shape,
            ((j % 16 * 512) as nat, (j / 16 * 512) as nat),
            (j % 16 * 512 + x) as nat,
            (j / 16 * 512 + y) as nat,
        )
}

/// The same shapes leave the same at the same place of two cells.
proof fn lemma_union_by_place(
    shapes: Seq<Primitive>,
    paint: Paint,
    i: nat,
    j: nat,
    x: nat,
    y: nat,
)
    requires
        shades_by_place(paint),
        i < 256,
        j < 256,
        x < 512,
        y < 512,
    ensures
        union(
            shapes,
            paint,
            i,
            (i % 16 * 512 + x) as nat,
            (i / 16 * 512 + y) as nat,
        ) == union(shapes, paint, j, (j % 16 * 512 + x) as nat, (j / 16 * 512 + y) as nat),
    decreases shapes.len(),
{
    if shapes.len() > 0 {
        lemma_union_by_place(shapes.drop_last(), paint, i, j, x, y);
        let shape = shapes.last();
        assert(cell_corner(i) == ((i % 16 * 512) as nat, (i / 16 * 512) as nat));
        assert(cell_corner(j) == ((j % 16 * 512) as nat, (j / 16 * 512) as nat));
        assert(paint(
            shape,
            ((i % 16 * 512) as nat, (i / 16 * 512) as nat),
            (i % 16 * 512 + x) as nat,
            (i / 16 * 512 + y) as nat,
        ) == paint(
            shape,
            ((j % 16 * 512) as nat, (j / 16 * 512) as nat),
            (j % 16 * 512 + x) as nat,
            (j / 16 * 512 + y) as nat,
        ));
    }
}

/// A tile looks the same whichever cell it has: the same shapes at two places,
/// of one pass or of two, give the same coverage.
pub proof fn a_tile_looks_the_same_in_any_cell(
    first: Seq<u8>,
    first_tiles: Seq<Seq<Primitive>>,
    second: Seq<u8>,
    second_tiles: Seq<Seq<Primitive>>,
    paint: Paint,
    i: nat,
    j: nat,
)
    requires
        i < first_tiles.len(),
        j < second_tiles.len(),
        first_tiles[i as int] == second_tiles[j as int],
        drawn(first, first_tiles, paint),
        drawn(second, second_tiles, paint),
        shades_by_place(paint),
    ensures
        cell(first, i) == cell(second, j),
{
    assert forall|k: int| 0 <= k < CELL * CELL implies cell(first, i)[k] == cell(second, j)[k] by {
        lemma_pixel_of_byte(i, k as nat);
        lemma_pixel_of_byte(j, k as nat);
        cells_lie_in_used_rows(first_tiles.len(), i, k as nat);
        cells_lie_in_used_rows(second_tiles.len(), j, k as nat);
        lemma_blended_is_own(first_tiles, paint, i, k as nat);
        lemma_blended_is_own(second_tiles, paint, j, k as nat);
        lemma_union_by_place(
            first_tiles[i as int],
            paint,
            i,
            j,
            (k % 512) as nat,
            (k / 512) as nat,
        );
        let p = cell_index(i, k as nat);
        let q = cell_index(j, k as nat);
        assert(first[p as int] == second[q as int]);
    }
    assert(cell(first, i) =~= cell(second, j));
}

/// The pixel that byte `k` of a cell stands for.
proof fn lemma_pixel_of_byte(i: nat, k: nat)
    requires
        i < 256,
        k < CELL * CELL,
    ensures
        cell_index(i, k) % MAX_TEX_DIM as nat == i % 16 * 512 + k % 512,
        cell_index(i, k) / MAX_TEX_DIM as nat == i / 16 * 512 + k / 512,
{
    let (ix, iy) = ((i % 16) as int, (i / 16) as int);
    let (kr, kc) = ((k / 512) as int, (k % 512) as int);
    let p = cell_index(i, k) as int;
    assert(p == (iy * 512 + kr) * 8192 + ix * 512 + kc);
    assert(0 <= ix * 512 + kc < 8192);
}

} // verus!
