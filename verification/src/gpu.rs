//! How a batch of tiles is spread over GPU render passes.
//!
//! Many tiles share one render pass, packed as cells into one 8192² "meta
//! texture", so the fixed per-dispatch and per-readback overhead amortizes
//! across a whole batch instead of being paid per tile. Tiny batches are left
//! to the CPU.
use crate::bin_codec::rows;
use crate::gpu_laws::chunk_is_longest_that_fits;
use crate::ieee::{at_least, is_nan32, order32};
use crate::raster::TileJob;
use crate::track::{Pixel, Polyline};
use vstd::prelude::*;

verus! {

/// Side length of a cell of the meta texture.
pub const CELL: u32 = 512;

/// Side length of the meta texture; safe on every GPU.
pub const MAX_TEX_DIM: u32 = 8192;

/// Cells in a row of the meta texture.
pub const CELLS_PER_ROW: u32 = 16;

/// Cells of the meta texture.
pub const MAX_TILES_PER_BATCH: usize = 256;

/// At or below this many tiles in a chunk, the CPU beats the GPU because the
/// fixed per-pass cost (clear, submit, sync, readback) isn't amortized.
pub const CPU_FALLBACK_MAX_TILES: usize = 2;

/// Vertex-buffer ceiling per render pass: 128 MB. A dense zoom level
/// tessellates far more geometry than 256 tiles' worth fits in one buffer, so
/// batches are cut by byte budget as well as tile count.
pub const VERT_BYTE_BUDGET: u64 = 0x800_0000;

/// Size of one vertex.
pub const VERTEX_BYTES: u64 = 32;

/// Bytes of the vertices that one point accounts for: 6 for its disc and 6 for
/// a segment.
pub const POINT_BYTES: u64 = 384;

/// How many points the polylines have together.
pub open spec fn point_count(lines: Seq<Seq<Pixel>>) -> nat
    decreases lines.len(),
{
    if lines.len() == 0 {
        0
    } else {
        point_count(lines.drop_last()) + lines.last().len()
    }
}

/// The vertex bytes that one job may need.
pub open spec fn job_bytes(job: TileJob) -> nat {
    POINT_BYTES as nat * point_count(rows(job.polylines@))
}

/// The vertex bytes that each job may need.
pub open spec fn weights(jobs: Seq<TileJob>) -> Seq<nat> {
    jobs.map_values(|job: TileJob| job_bytes(job))
}

/// The sum of weights.
pub open spec fn total(weights: Seq<nat>) -> nat
    decreases weights.len(),
{
    if weights.len() == 0 {
        0
    } else {
        total(weights.drop_last()) + weights.last()
    }
}

/// A number held to the range of `u64`.
pub open spec fn capped(n: nat) -> u64 {
    if n <= u64::MAX {
        n as u64
    } else {
        u64::MAX
    }
}

/// How many points the polylines have together, held to the range of `u64`.
fn count_points(polylines: &[Polyline]) -> (r: u64)
    ensures
        r == capped(point_count(rows(polylines@))),
{
    let mut sum: u64 = 0;
    let mut i: usize = 0;
    let ghost lines = rows(polylines@);
    while i < polylines.len()
        invariant
            i <= polylines@.len(),
            lines == rows(polylines@),
            sum == capped(point_count(lines.take(i as int))),
        decreases polylines@.len() - i,
    {
        sum = sum.saturating_add(polylines[i].len() as u64);
        i = i + 1;
        proof {
            let now = lines.take(i as int);
            assert(now.drop_last() =~= lines.take(i - 1));
            assert(now.last() == polylines@[i - 1]@);
        }
    }
    assert(lines.take(i as int) =~= lines);
    sum
}

/// Upper bound on the vertex bytes that the jobs tessellate to: 6 vertices per
/// point (cap or join disc) plus 6 per segment, i.e. at most 12 per point. Held
/// to the range of `u64`. Only counts lengths, so it's cheap enough to call
/// while forming batches.
pub fn vert_bytes(jobs: &[TileJob]) -> (r: u64)
    ensures
        r == capped(total(weights(jobs@))),
{
    let mut sum: u64 = 0;
    let mut i: usize = 0;
    let ghost all = weights(jobs@);
    while i < jobs.len()
        invariant
            i <= jobs@.len(),
            all == weights(jobs@),
            sum == capped(total(all.take(i as int))),
        decreases jobs@.len() - i,
    {
        let points = count_points(jobs[i].polylines);
        let bytes = if points > u64::MAX / POINT_BYTES {
            u64::MAX
        } else {
            points * POINT_BYTES
        };
        sum = sum.saturating_add(bytes);
        i = i + 1;
        proof {
            let now = all.take(i as int);
            assert(now.drop_last() =~= all.take(i - 1));
            assert(now.last() == job_bytes(jobs@[i - 1]));
            assert(bytes == capped(job_bytes(jobs@[i - 1])));
        }
    }
    assert(all.take(i as int) =~= all);
    sum
}

/// Whether the first `k` jobs fit one render pass: at most
/// [`MAX_TILES_PER_BATCH`] tiles, and at most `max` bytes of geometry unless it
/// is one job alone.
pub open spec fn fits(weights: Seq<nat>, k: nat, max: u64) -> bool {
    k <= MAX_TILES_PER_BATCH && k <= weights.len() && (k <= 1 || total(weights.take(k as int))
        <= max)
}

/// The longest prefix that fits, where the first `k` jobs do.
pub open spec fn longest_from(weights: Seq<nat>, k: nat, max: u64) -> nat
    decreases MAX_TILES_PER_BATCH - k,
{
    if fits(weights, k + 1, max) {
        longest_from(weights, k + 1, max)
    } else {
        k
    }
}

/// How many jobs the next render pass takes.
pub open spec fn chunk_len(weights: Seq<nat>, max: u64) -> nat {
    longest_from(weights, 1, max)
}

/// How an adapter is described, e.g. `Apple M1 Pro (IntegratedGpu, Metal)`.
pub open spec fn adapter_text(name: Seq<char>, kind: Seq<char>, backend: Seq<char>) -> Seq<char> {
    name + " ("@ + kind + ", "@ + backend + ")"@
}

/// A GPU that tiles can be rendered on.
pub struct WgpuRenderer {
    adapter_info: String,
    max_vert_bytes: u64,
}

impl WgpuRenderer {
    /// The vertex budget is never more than [`VERT_BYTE_BUDGET`].
    #[verifier::type_invariant]
    spec fn budget_is_bounded(self) -> bool {
        self.max_vert_bytes <= VERT_BYTE_BUDGET
    }

    /// Adapter name, type and backend.
    pub closed spec fn spec_adapter_info(self) -> Seq<char> {
        self.adapter_info@
    }

    /// Vertex bytes that one pass may upload.
    pub closed spec fn spec_max_vert_bytes(self) -> u64 {
        self.max_vert_bytes
    }

    /// Describes an initialized device by its adapter and the size of the
    /// largest buffer that it allows.
    pub fn new(adapter_info: String, max_buffer_size: u64) -> (r: Self)
        ensures
            r.spec_adapter_info() == adapter_info@,
            r.spec_max_vert_bytes() == (if max_buffer_size < VERT_BYTE_BUDGET {
                max_buffer_size
            } else {
                VERT_BYTE_BUDGET
            }),
    {
        let max_vert_bytes = if max_buffer_size < VERT_BYTE_BUDGET {
            max_buffer_size
        } else {
            VERT_BYTE_BUDGET
        };
        WgpuRenderer { adapter_info, max_vert_bytes }
    }

    /// Describes the device that requesting an adapter, by its name, type and
    /// backend, and then a device, by the size of its largest buffer, led to. An
    /// error tells which of the two failed, and why; where there is no adapter
    /// no device counts.
    pub fn from_requests(
        adapter: Result<(String, String, String), String>,
        device: Result<u64, String>,
    ) -> (r: Result<WgpuRenderer, String>)
        ensures
            match (adapter, device) {
                (Err(e), _) => r matches Err(text) && text@ == "no wgpu adapter: "@ + e@,
                (Ok(_), Err(e)) => r matches Err(text) && text@ == "request_device: "@ + e@,
                (Ok((name, kind, backend)), Ok(max_buffer_size)) => {
                    &&& r matches Ok(renderer)
                    &&& renderer.spec_adapter_info() == adapter_text(name@, kind@, backend@)
                    &&& renderer.spec_adapter_info() == name@ + " ("@ + kind@ + ", "@ + backend@
                        + ")"@
                    &&& renderer.spec_max_vert_bytes() == (if max_buffer_size < VERT_BYTE_BUDGET {
                        max_buffer_size
                    } else {
                        VERT_BYTE_BUDGET
                    })
                },
            },
    {
        match adapter {
            Err(e) => Err("no wgpu adapter: ".to_string().concat(e.as_str())),
            Ok((name, kind, backend)) => match device {
                Err(e) => Err("request_device: ".to_string().concat(e.as_str())),
                Ok(max_buffer_size) => {
                    let mut info = name;
                    info.append(" (");
                    info.append(kind.as_str());
                    info.append(", ");
                    info.append(backend.as_str());
                    info.append(")");
                    Ok(WgpuRenderer::new(info, max_buffer_size))
                },
            },
        }
    }

    /// Adapter name, type and backend.
    pub fn adapter_info(&self) -> (r: &str)
        ensures
            r@ == self.spec_adapter_info(),
    {
        self.adapter_info.as_str()
    }

    /// Vertex bytes that one pass may upload.
    pub fn max_vert_bytes(&self) -> (r: u64)
        ensures
            r == self.spec_max_vert_bytes(),
            r <= VERT_BYTE_BUDGET,
    {
        proof {
            use_type_invariant(self);
        }
        self.max_vert_bytes
    }

    /// Longest prefix of `rest` that fits one render pass: at most
    /// [`MAX_TILES_PER_BATCH`] tiles and at most the budget of geometry.
    /// Always at least one job so the caller makes progress.
    pub fn next_chunk<'j, 'a>(&self, rest: &'j [TileJob<'a>]) -> (r: &'j [TileJob<'a>])
        requires
            rest@.len() > 0,
        ensures
            r@ == rest@.take(chunk_len(weights(rest@), self.spec_max_vert_bytes()) as int),
            r@ == rest@.take(r@.len() as int),
            1 <= r@.len() <= rest@.len(),
            r@.len() <= 256,
            r@.len() > 1 ==> total(weights(r@)) <= self.spec_max_vert_bytes(),
            r@.len() < rest@.len() && r@.len() < 256 ==> total(
                weights(rest@.take(r@.len() as int + 1)),
            ) > self.spec_max_vert_bytes(),
    {
        let n = chunk_size(rest, self.max_vert_bytes());
        proof {
            let all = weights(rest@);
            chunk_is_longest_that_fits(all, self.max_vert_bytes);
            assert(weights(rest@.take(n as int)) =~= all.take(n as int));
            if n < rest@.len() && n < 256 {
                assert(weights(rest@.take(n as int + 1)) =~= all.take(n as int + 1));
                assert(!fits(all, (n + 1) as nat, self.max_vert_bytes));
            }
        }
        vstd::slice::slice_subrange(rest, 0, n)
    }
}

/// How many jobs of `rest` the next render pass takes.
pub(crate) fn chunk_size(rest: &[TileJob], max: u64) -> (n: usize)
    requires
        rest@.len() > 0,
        max < u64::MAX,
    ensures
        n == chunk_len(weights(rest@), max),
        1 <= n <= rest@.len(),
        n <= MAX_TILES_PER_BATCH,
{
    let ghost all = weights(rest@);
    let mut bytes: u64 = vert_bytes(vstd::slice::slice_subrange(rest, 0, 1));
    let mut n: usize = 1;
    assert(weights(rest@.subrange(0, 1)) =~= all.take(1));
    while n < rest.len() && n < MAX_TILES_PER_BATCH
        invariant
            1 <= n <= rest@.len(),
            n <= MAX_TILES_PER_BATCH,
            max < u64::MAX,
            all == weights(rest@),
            bytes == capped(total(all.take(n as int))),
            longest_from(all, n as nat, max) == chunk_len(all, max),
        ensures
            longest_from(all, n as nat, max) == n,
        decreases rest@.len() - n,
    {
        let next = vert_bytes(vstd::slice::slice_subrange(rest, n, n + 1));
        proof {
            let one = weights(rest@.subrange(n as int, n + 1));
            assert(one =~= seq![all[n as int]]);
            assert(one.drop_last() =~= Seq::empty());
            reveal_with_fuel(total, 2);
            assert(total(one) == all[n as int]);
            let longer = all.take(n + 1);
            assert(longer.drop_last() =~= all.take(n as int));
            assert(longer.last() == all[n as int]);
        }
        let sum = bytes.saturating_add(next);
        if sum > max {
            break ;
        }
        bytes = sum;
        n = n + 1;
    }
    n
}

/// A shape that strokes are tessellated to.
#[derive(Clone, Copy, Debug)]
pub enum Primitive {
    /// Round cap or join: a disc around a point.
    Disc(Pixel),
    /// Segment between two points: a quad as wide as the stroke.
    Quad(Pixel, Pixel),
}

/// Length of the shortest segment that is drawn as a quad, in pixels: the bits
/// of the single-precision number `1e-6`.
pub const SHORTEST_QUAD: u32 = 0x3586_37BD;

/// Whether a segment of this length, bits of a single-precision number, is
/// drawn as a quad: not where it is a number below [`SHORTEST_QUAD`], whose
/// discs show all there is.
pub open spec fn quad_drawn(length: u32) -> bool {
    is_nan32(length) || order32(length) >= order32(SHORTEST_QUAD)
}

/// Whether a segment of this length is drawn as a quad.
pub fn draws_quad(length: u32) -> (r: bool)
    ensures
        r == quad_drawn(length),
{
    at_least(length, SHORTEST_QUAD) || !at_least(SHORTEST_QUAD, length)
}

/// The quads along the first `n` segments of a polyline whose segments have
/// these lengths.
pub open spec fn quads(line: Seq<Pixel>, lengths: Seq<u32>, n: int) -> Seq<Primitive>
    decreases n,
{
    if n <= 0 {
        Seq::empty()
    } else if quad_drawn(lengths[n - 1]) {
        quads(line, lengths, n - 1).push(Primitive::Quad(line[n - 1], line[n]))
    } else {
        quads(line, lengths, n - 1)
    }
}

/// The shapes of one polyline: a disc at every point, then a quad along every
/// segment that is long enough.
pub open spec fn line_primitives(line: Seq<Pixel>, lengths: Seq<u32>) -> Seq<Primitive> {
    Seq::new(line.len(), |i: int| Primitive::Disc(line[i])) + quads(line, lengths, line.len() - 1)
}

/// The shapes of polylines one behind the other.
pub open spec fn primitives(lines: Seq<Seq<Pixel>>, lengths: Seq<Seq<u32>>) -> Seq<Primitive>
    decreases lines.len(),
{
    if lines.len() == 0 {
        Seq::empty()
    } else {
        primitives(lines.drop_last(), lengths) + line_primitives(
            lines.last(),
            lengths[lines.len() - 1],
        )
    }
}

/// Expands polylines into the shapes whose triangles cover their strokes: each
/// point becomes a disc for round caps and joins, each segment a quad unless it
/// is too short for one. `lengths` holds the length of each segment of each
/// polyline, as the bits of single-precision numbers.
pub fn tessellate(polylines: &[Polyline], lengths: &[Vec<u32>]) -> (r: Vec<Primitive>)
    requires
        lengths@.len() == polylines@.len(),
        forall|i: int|
            0 <= i < polylines@.len() ==> (#[trigger] polylines@[i])@.len() <= lengths@[i]@.len()
                + 1,
    ensures
        r@ == primitives(rows(polylines@), rows(lengths@)),
{
    let mut shapes: Vec<Primitive> = Vec::new();
    let ghost lines = rows(polylines@);
    let ghost measured = rows(lengths@);
    let mut i: usize = 0;
    while i < polylines.len()
        invariant
            i <= polylines@.len(),
            lengths@.len() == polylines@.len(),
            forall|k: int|
                0 <= k < polylines@.len() ==> (#[trigger] polylines@[k])@.len()
                    <= lengths@[k]@.len() + 1,
            lines == rows(polylines@),
            measured == rows(lengths@),
            shapes@ == primitives(lines.take(i as int), measured),
        decreases polylines@.len() - i,
    {
        assert(polylines@[i as int]@.len() <= lengths@[i as int]@.len() + 1);
        tessellate_line(polylines[i].as_slice(), lengths[i].as_slice(), &mut shapes);
        i = i + 1;
        proof {
            let now = lines.take(i as int);
            assert(now.drop_last() =~= lines.take(i - 1));
            assert(now.last() == polylines@[i - 1]@);
            assert(measured[i - 1] == lengths@[i - 1]@);
        }
    }
    assert(lines.take(i as int) =~= lines);
    shapes
}

/// Appends the shapes of one polyline.
fn tessellate_line(line: &[Pixel], lengths: &[u32], shapes: &mut Vec<Primitive>)
    requires
        line@.len() <= lengths@.len() + 1,
    ensures
        final(shapes)@ == old(shapes)@ + line_primitives(line@, lengths@),
{
    let ghost start = shapes@;
    let ghost discs = Seq::new(line@.len(), |i: int| Primitive::Disc(line@[i]));
    let mut i: usize = 0;
    while i < line.len()
        invariant
            i <= line@.len(),
            discs == Seq::new(line@.len(), |i: int| Primitive::Disc(line@[i])),
            shapes@ == start + discs.take(i as int),
        decreases line@.len() - i,
    {
        shapes.push(Primitive::Disc(line[i]));
        i = i + 1;
        assert(shapes@ =~= start + discs.take(i as int));
    }
    assert(shapes@ =~= start + discs + quads(line@, lengths@, 0));
    let mut k: usize = 1;
    while k < line.len()
        invariant
            1 <= k,
            k <= line@.len() || k == 1,
            line@.len() <= lengths@.len() + 1,
            shapes@ == start + discs + quads(line@, lengths@, k - 1),
        decreases line@.len() - k,
    {
        if draws_quad(lengths[k - 1]) {
            shapes.push(Primitive::Quad(line[k - 1], line[k]));
        }
        k = k + 1;
        assert(shapes@ =~= start + discs + quads(line@, lengths@, k - 1));
    }
    assert(quads(line@, lengths@, line@.len() - 1) == quads(line@, lengths@, k - 1));
    assert(shapes@ =~= start + line_primitives(line@, lengths@));
}

/// The sign of an offset.
#[derive(Clone, Copy, Debug, PartialEq, Eq, Structural)]
pub enum Sign {
    /// Against the direction.
    Minus,
    /// No offset.
    Zero,
    /// Along the direction.
    Plus,
}

/// A corner of the two triangles that a shape is drawn as.
///
/// It stands at `at`, plus the offset that the signs say. Of a disc they are the
/// signs of the radius along both axes. Of a quad the first is the sign of the
/// normal, as long as half the stroke, and the second is zero. The signs times half
/// the stroke are also what the distance to the stroke's middle is told by.
#[derive(Clone, Copy, Debug, PartialEq, Eq)]
pub struct Corner {
    /// The center of the disc, or the end of the segment.
    pub at: Pixel,
    /// Sign of the offset across, and along.
    pub signs: (Sign, Sign),
    /// Whether the shape is a disc.
    pub disc: bool,
}

/// The corners of the two triangles of a shape: for a disc the square around
/// it, for a quad both ends to both sides.
pub open spec fn shape_corners(shape: Primitive) -> Seq<Corner> {
    match shape {
        Primitive::Disc(p) => seq![
            Corner { at: p, signs: (Sign::Minus, Sign::Minus), disc: true },
            Corner { at: p, signs: (Sign::Plus, Sign::Minus), disc: true },
            Corner { at: p, signs: (Sign::Plus, Sign::Plus), disc: true },
            Corner { at: p, signs: (Sign::Minus, Sign::Minus), disc: true },
            Corner { at: p, signs: (Sign::Plus, Sign::Plus), disc: true },
            Corner { at: p, signs: (Sign::Minus, Sign::Plus), disc: true },
        ],
        Primitive::Quad(a, b) => seq![
            Corner { at: a, signs: (Sign::Plus, Sign::Zero), disc: false },
            Corner { at: a, signs: (Sign::Minus, Sign::Zero), disc: false },
            Corner { at: b, signs: (Sign::Plus, Sign::Zero), disc: false },
            Corner { at: a, signs: (Sign::Minus, Sign::Zero), disc: false },
            Corner { at: b, signs: (Sign::Minus, Sign::Zero), disc: false },
            Corner { at: b, signs: (Sign::Plus, Sign::Zero), disc: false },
        ],
    }
}

/// The corners of the two triangles of a shape.
pub fn corners(shape: Primitive) -> (r: [Corner; 6])
    ensures
        r@ == shape_corners(shape),
{
    let r = match shape {
        Primitive::Disc(p) => {
            let low = Corner { at: p, signs: (Sign::Minus, Sign::Minus), disc: true };
            let high = Corner { at: p, signs: (Sign::Plus, Sign::Plus), disc: true };
            let right = Corner { at: p, signs: (Sign::Plus, Sign::Minus), disc: true };
            let left = Corner { at: p, signs: (Sign::Minus, Sign::Plus), disc: true };
            [low, right, high, low, high, left]
        },
        Primitive::Quad(a, b) => {
            let a_plus = Corner { at: a, signs: (Sign::Plus, Sign::Zero), disc: false };
            let a_minus = Corner { at: a, signs: (Sign::Minus, Sign::Zero), disc: false };
            let b_plus = Corner { at: b, signs: (Sign::Plus, Sign::Zero), disc: false };
            let b_minus = Corner { at: b, signs: (Sign::Minus, Sign::Zero), disc: false };
            [a_plus, a_minus, b_plus, a_minus, b_minus, b_plus]
        },
    };
    assert(r@ =~= shape_corners(shape));
    r
}

/// The corners of shapes one behind the other: the vertices of a tile.
pub open spec fn vertices(shapes: Seq<Primitive>) -> Seq<Corner>
    decreases shapes.len(),
{
    if shapes.len() == 0 {
        Seq::empty()
    } else {
        vertices(shapes.drop_last()) + shape_corners(shapes.last())
    }
}

/// The top-left pixel of cell `i` in the meta texture.
pub open spec fn cell_corner(i: nat) -> (nat, nat) {
    (i % CELLS_PER_ROW as nat * CELL as nat, i / CELLS_PER_ROW as nat * CELL as nat)
}

/// Where byte `k` of cell `i`, row-major, stands in the meta texture.
pub open spec fn cell_index(i: nat, k: nat) -> nat {
    let (x, y) = cell_corner(i);
    (y + k / CELL as nat) * MAX_TEX_DIM as nat + x + k % CELL as nat
}

/// The bytes of cell `i` of a meta texture, row-major.
pub open spec fn cell(data: Seq<u8>, i: nat) -> Seq<u8> {
    Seq::new((CELL * CELL) as nat, |k: int| data[cell_index(i, k as nat) as int])
}

/// Rows of pixels of the meta texture that `n` tiles fill.
pub open spec fn rows_used(n: nat) -> nat {
    (n + CELLS_PER_ROW - 1) as nat / CELLS_PER_ROW as nat * CELL as nat
}

/// The top-left pixel of cell `i` in the meta texture.
pub fn cell_origin(i: usize) -> (r: (u32, u32))
    requires
        i < MAX_TILES_PER_BATCH,
    ensures
        (r.0 as nat, r.1 as nat) == cell_corner(i as nat),
        r.0 == i % 16 * 512,
        r.1 == i / 16 * 512,
{
    let i = i as u32;
    ((i % CELLS_PER_ROW) * CELL, (i / CELLS_PER_ROW) * CELL)
}

/// Rows of pixels of the meta texture that `n` tiles fill: only those need
/// copying back.
pub fn used_height(n: usize) -> (r: u32)
    requires
        n <= MAX_TILES_PER_BATCH,
    ensures
        r == rows_used(n as nat),
        r == (n + 15) / 16 * 512,
{
    (n as u32 + CELLS_PER_ROW - 1) / CELLS_PER_ROW * CELL
}

/// Cuts cell `i` out of the bytes that were read back of the meta texture.
pub fn cut_cell(data: &[u8], i: usize) -> (r: Vec<u8>)
    requires
        i < MAX_TILES_PER_BATCH,
        data@.len() >= MAX_TEX_DIM as nat * rows_used((i + 1) as nat),
    ensures
        r@ == cell(data@, i as nat),
        r@.len() == 512 * 512,
        forall|row: int, column: int|
            0 <= row < 512 && 0 <= column < 512 ==> #[trigger] r@[row * 512 + column] == data@[(i
                / 16 * 512 + row) * 8192 + i % 16 * 512 + column],
{
    let (x, y) = cell_origin(i);
    let mut coverage: Vec<u8> = Vec::with_capacity(262144);
    let ghost whole = cell(data@, i as nat);
    let mut r: u32 = 0;
    while r < CELL
        invariant
            r <= CELL,
            i < MAX_TILES_PER_BATCH,
            (x as nat, y as nat) == cell_corner(i as nat),
            data@.len() >= MAX_TEX_DIM as nat * rows_used((i + 1) as nat),
            whole == cell(data@, i as nat),
            coverage@ == whole.take((r * CELL) as int),
        decreases CELL - r,
    {
        let from = ((y + r) * MAX_TEX_DIM + x) as usize;
        let row = vstd::slice::slice_subrange(data, from, from + CELL as usize);
        let ghost before = coverage@;
        coverage.extend_from_slice(row);
        r = r + 1;
        proof {
            assert(coverage@ =~= before + row@);
            assert forall|k: int| 0 <= k < CELL implies whole[(r - 1) * CELL + k] == row@[k] by {
                assert(((r - 1) * CELL + k) / CELL as int == r - 1);
                assert(((r - 1) * CELL + k) % CELL as int == k);
            }
            assert(coverage@ =~= whole.take((r * CELL) as int));
        }
    }
    assert(coverage@ =~= whole);
    assert forall|row: int, column: int| 0 <= row < 512 && 0 <= column < 512 implies
        #[trigger] coverage@[row * 512 + column] == data@[(i / 16 * 512 + row) * 8192 + i % 16 * 512
        + column] by {
        assert((row * 512 + column) / 512 == row && (row * 512 + column) % 512 == column);
    }
    coverage
}

} // verus!
