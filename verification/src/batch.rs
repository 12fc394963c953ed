//! Batched tile rasterization, one step of outside work at a time.
//!
//! [`TileRasterizer`] knows which path tiles are rendered on. It opens a
//! [`Batch`], which says what to do next: stroke one tile on the CPU, or run
//! one render pass on the GPU. The pixels that come back are handed in, and the
//! tiles come out in input order.
use crate::gpu::{
    cell, chunk_len, chunk_size, cut_cell, rows_used, total, vert_bytes, weights,
    CPU_FALLBACK_MAX_TILES, MAX_TEX_DIM, MAX_TILES_PER_BATCH, VERT_BYTE_BUDGET,
};
use crate::gpu_laws::{a_chunk_cannot_be_longer, chunk_is_longest_that_fits};
use crate::raster::{tile_area, RenderedTile, TileJob};
use crate::stroke::{alpha_channel, coverage_of, TileStyle};
use vstd::prelude::*;

verus! {

/// What a batch needs done next.
#[derive(Clone, Copy, Debug, PartialEq, Eq, Structural)]
pub enum Step {
    /// Stroke the tile of this job on the CPU.
    Stroke(usize),
    /// Run one render pass over `count` jobs from `first` on.
    Pass {
        /// Index of the first job of the pass.
        first: usize,
        /// Number of jobs of the pass.
        count: usize,
    },
    /// Every job has its tile.
    Done,
}

/// A tile as a value: column, row and coverage.
pub type TileValue = (u32, u32, Seq<u8>);

/// The values of rendered tiles.
pub open spec fn tile_values(tiles: Seq<RenderedTile>) -> Seq<TileValue> {
    tiles.map_values(|tile: RenderedTile| (tile.x, tile.y, tile.coverage@))
}

/// First job of the chunk that job `i` falls into and first job behind it,
/// where chunks are cut from job `start` on.
pub open spec fn chunk_around(weights: Seq<nat>, max: u64, start: nat, i: nat) -> (nat, nat)
    decreases weights.len() - start,
{
    let end = start + chunk_len(weights.skip(start as int), max);
    if i < end || end <= start || end >= weights.len() {
        (start, end)
    } else {
        chunk_around(weights, max, end, i)
    }
}

/// Whether a chunk is worth a render pass: tiny chunks don't amortize the
/// fixed per-pass cost, and a lone job too big for the vertex budget does not
/// fit one.
pub open spec fn worth_a_pass(weights: Seq<nat>, max: u64, first: nat, end: nat) -> bool {
    end - first > CPU_FALLBACK_MAX_TILES && total(weights.subrange(first as int, end as int))
        <= max
}

/// What is to be done once the first `done` jobs have their tiles. `budget` is
/// the vertex budget of the GPU, where there is one.
pub open spec fn step_after(weights: Seq<nat>, budget: Option<u64>, done: nat) -> Step {
    if done >= weights.len() {
        Step::Done
    } else {
        match budget {
            None => Step::Stroke(done as usize),
            Some(max) => {
                let (first, end) = chunk_around(weights, max, 0, done);
                if worth_a_pass(weights, max, first, end) {
                    Step::Pass { first: first as usize, count: (end - first) as usize }
                } else {
                    Step::Stroke(done as usize)
                }
            },
        }
    }
}

/// A batch of tiles that is being rendered.
pub struct Batch<'a> {
    jobs: &'a [TileJob<'a>],
    style: TileStyle,
    budget: Option<u64>,
    end: usize,
    on_gpu: bool,
    out: Vec<RenderedTile>,
}

impl<'a> Batch<'a> {
    /// The jobs of the batch.
    pub closed spec fn jobs(self) -> Seq<TileJob<'a>> {
        self.jobs@
    }

    /// The style that tiles are stroked in.
    pub closed spec fn spec_style(self) -> TileStyle {
        self.style
    }

    /// The vertex budget of the GPU, where there is one.
    pub closed spec fn budget(self) -> Option<u64> {
        self.budget
    }

    /// The tiles rendered so far.
    pub closed spec fn tiles(self) -> Seq<TileValue> {
        tile_values(self.out@)
    }

    /// What is to be done next.
    pub open spec fn step(self) -> Step {
        step_after(weights(self.jobs()), self.budget(), self.tiles().len())
    }

    /// Tiles are rendered in the order of the jobs, carry their keys, and have
    /// a coverage byte for each pixel. The current chunk is the one that the
    /// next job falls into; a render pass takes its chunk whole.
    pub closed spec fn wf(self) -> bool {
        &&& self.out@.len() <= self.jobs@.len()
        &&& forall|i: int|
            0 <= i < self.out@.len() ==> {
                &&& (#[trigger] self.out@[i]).x == self.jobs@[i].x
                &&& self.out@[i].y == self.jobs@[i].y
                &&& self.out@[i].coverage@.len() == tile_area()
            }
        &&& self.budget matches Some(max) ==> max <= VERT_BYTE_BUDGET
        &&& self.out@.len() < self.jobs@.len() ==> match self.budget {
            None => self.end == self.jobs@.len() && !self.on_gpu,
            Some(max) => {
                let (first, end) = chunk_around(weights(self.jobs@), max, 0, self.out@.len());
                &&& first <= self.out@.len() < end <= self.jobs@.len()
                &&& end - first <= MAX_TILES_PER_BATCH
                &&& self.end == end
                &&& self.on_gpu == worth_a_pass(weights(self.jobs@), max, first, end)
                &&& self.on_gpu ==> first == self.out@.len()
            },
        }
    }

    /// The style that tiles are stroked in. RGB is the default color (only the
    /// alpha channel is kept); the opacity is what matters.
    pub fn style(&self) -> (r: TileStyle)
        ensures
            r == self.spec_style(),
    {
        self.style
    }

    /// What is to be done next.
    pub fn next(&self) -> (r: Step)
        requires
            self.wf(),
        ensures
            r == self.step(),
            match r {
                Step::Stroke(i) => i == self.tiles().len() && i < self.jobs().len(),
                Step::Pass { first, count } => {
                    &&& first == self.tiles().len()
                    &&& first + count <= self.jobs().len()
                    &&& count <= MAX_TILES_PER_BATCH
                },
                Step::Done => self.tiles().len() == self.jobs().len(),
            },
    {
        let done = self.out.len();
        if done == self.jobs.len() {
            Step::Done
        } else if self.on_gpu {
            Step::Pass { first: done, count: self.end - done }
        } else {
            Step::Stroke(done)
        }
    }

    /// Goes on to the next chunk where the current one, around job `before`,
    /// has all its tiles.
    fn advance(&mut self, before: Ghost<nat>)
        requires
            before@ < old(self).jobs@.len(),
            before@ < old(self).out@.len() <= old(self).jobs@.len(),
            forall|i: int|
                0 <= i < old(self).out@.len() ==> {
                    &&& (#[trigger] old(self).out@[i]).x == old(self).jobs@[i].x
                    &&& old(self).out@[i].y == old(self).jobs@[i].y
                    &&& old(self).out@[i].coverage@.len() == tile_area()
                },
            old(self).budget matches Some(max) ==> max <= VERT_BYTE_BUDGET,
            match old(self).budget {
                None => old(self).end == old(self).jobs@.len() && !old(self).on_gpu,
                Some(max) => {
                    let (first, end) = chunk_around(weights(old(self).jobs@), max, 0, before@);
                    &&& old(self).out@.len() <= end
                    &&& old(self).end == end
                    &&& old(self).on_gpu == worth_a_pass(
                        weights(old(self).jobs@),
                        max,
                        first,
                        end,
                    )
                    &&& old(self).on_gpu ==> old(self).out@.len() == end
                },
            },
        ensures
            final(self).wf(),
            final(self).jobs() == old(self).jobs(),
            final(self).spec_style() == old(self).spec_style(),
            final(self).budget() == old(self).budget(),
            final(self).tiles() == old(self).tiles(),
    {
        let done = self.out.len();
        if done < self.jobs.len() {
            proof {
                if let Some(max) = self.budget {
                    lemma_chunk_around(weights(self.jobs@), max, 0, before@);
                    lemma_chunk_goes_on(weights(self.jobs@), max, 0, before@, done as nat);
                }
            }
            if done == self.end {
                let (end, on_gpu) = open_chunk(self.jobs, self.budget, done);
                self.end = end;
                self.on_gpu = on_gpu;
            }
        }
    }

    /// The tiles, once every job has one: in input order, each with the key of
    /// its job and [`TILE_SIZE`](crate::TILE_SIZE)² coverage bytes.
    pub fn finish(self) -> (r: Vec<RenderedTile>)
        requires
            self.wf(),
            self.step() is Done,
        ensures
            tile_values(r@) == self.tiles(),
            forall|i: int|
                0 <= i < r@.len() ==> self.tiles()[i] == (
                    (#[trigger] r@[i]).x,
                    r@[i].y,
                    r@[i].coverage@,
                ),
            r@.len() == self.jobs().len(),
            forall|i: int|
                0 <= i < r@.len() ==> {
                    &&& (#[trigger] r@[i]).x == self.jobs()[i].x
                    &&& r@[i].y == self.jobs()[i].y
                    &&& r@[i].coverage@.len() == tile_area()
                },
    {
        self.out
    }

    /// Hands in the RGBA pixels of the tile that was to be stroked.
    pub fn stroked(&mut self, rgba: &[u8])
        requires
            old(self).wf(),
            old(self).step() is Stroke,
            rgba@.len() == 4 * tile_area(),
        ensures
            final(self).wf(),
            final(self).jobs() == old(self).jobs(),
            final(self).spec_style() == old(self).spec_style(),
            final(self).budget() == old(self).budget(),
            final(self).tiles() == old(self).tiles().push(
                ({
                    let job = old(self).jobs()[old(self).tiles().len() as int];
                    (job.x, job.y, alpha_channel(rgba@))
                }),
            ),
    {
        let done = self.out.len();
        let job = &self.jobs[done];
        let tile = RenderedTile { x: job.x, y: job.y, coverage: coverage_of(rgba) };
        let ghost before = tile_values(self.out@);
        self.out.push(tile);
        assert(tile_values(self.out@) =~= before.push((tile.x, tile.y, tile.coverage@)));
        self.advance(Ghost(done as nat));
    }

    /// Hands in the bytes that were read back of the meta texture after the
    /// render pass that was to be run.
    pub fn passed(&mut self, data: &[u8])
        requires
            old(self).wf(),
            old(self).step() matches Step::Pass { first, count } && data@.len() >= MAX_TEX_DIM
                as nat * rows_used(count as nat),
        ensures
            final(self).wf(),
            final(self).jobs() == old(self).jobs(),
            final(self).spec_style() == old(self).spec_style(),
            final(self).budget() == old(self).budget(),
            old(self).step() matches Step::Pass { first, count } && final(self).tiles() == old(
                self,
            ).tiles() + Seq::new(
                count as nat,
                |i: int|
                    (
                        old(self).jobs()[first + i].x,
                        old(self).jobs()[first + i].y,
                        cell(data@, i as nat),
                    ),
            ),
    {
        let first = self.out.len();
        let count = self.end - first;
        let ghost jobs = self.jobs@;
        let ghost start = self.out@;
        let ghost added = Seq::new(
            count as nat,
            |i: int| (jobs[first + i].x, jobs[first + i].y, cell(data@, i as nat)),
        );
        let mut i: usize = 0;
        assert(tile_values(self.out@) =~= tile_values(start) + added.take(0));
        while i < count
            invariant
                i <= count <= MAX_TILES_PER_BATCH,
                first + count <= self.jobs@.len(),
                self.jobs@ == jobs,
                *self == (Batch { out: self.out, ..*old(self) }),
                start == old(self).out@,
                start.len() == first,
                self.out@.len() == first + i,
                data@.len() >= MAX_TEX_DIM as nat * rows_used(count as nat),
                added == Seq::new(
                    count as nat,
                    |i: int| (jobs[first + i].x, jobs[first + i].y, cell(data@, i as nat)),
                ),
                forall|k: int|
                    0 <= k < self.out@.len() ==> {
                        &&& (#[trigger] self.out@[k]).x == jobs[k].x
                        &&& self.out@[k].y == jobs[k].y
                        &&& self.out@[k].coverage@.len() == tile_area()
                    },
                tile_values(self.out@) == tile_values(start) + added.take(i as int),
            decreases count - i,
        {
            let job = &self.jobs[first + i];
            proof {
                lemma_rows_used_grow((i + 1) as nat, count as nat);
            }
            let tile = RenderedTile { x: job.x, y: job.y, coverage: cut_cell(data, i) };
            let ghost before = tile_values(self.out@);
            self.out.push(tile);
            i = i + 1;
            assert(tile_values(self.out@) =~= before.push((tile.x, tile.y, tile.coverage@)));
            assert(tile_values(self.out@) =~= tile_values(start) + added.take(i as int));
        }
        assert(added.take(i as int) =~= added);
        self.advance(Ghost(first as nat));
    }
}

/// A batch that has no tile yet.
pub(crate) fn start_batch<'a>(
    jobs: &'a [TileJob<'a>],
    style: TileStyle,
    budget: Option<u64>,
) -> (r: Batch<'a>)
    requires
        budget matches Some(max) ==> max <= VERT_BYTE_BUDGET,
    ensures
        r.wf(),
        r.jobs() == jobs@,
        r.spec_style() == style,
        r.budget() == budget,
        r.tiles() == Seq::<TileValue>::empty(),
{
    let (end, on_gpu) = if jobs.len() == 0 {
        (0, false)
    } else {
        open_chunk(jobs, budget, 0)
    };
    let r = Batch { jobs, style, budget, end, on_gpu, out: Vec::new() };
    proof {
        assert(tile_values(r.out@) =~= Seq::<TileValue>::empty());
        if let Some(max) = budget {
            if jobs@.len() > 0 {
                lemma_chunk_around(weights(jobs@), max, 0, 0);
            }
        }
    }
    r
}

/// How far the chunk from `first` on reaches, and whether it is worth a render
/// pass.
fn open_chunk(jobs: &[TileJob], budget: Option<u64>, first: usize) -> (r: (usize, bool))
    requires
        first < jobs@.len(),
        budget matches Some(max) ==> max <= VERT_BYTE_BUDGET,
    ensures
        match budget {
            None => r.0 == jobs@.len() && !r.1,
            Some(max) => {
                &&& r.0 == first + chunk_len(weights(jobs@).skip(first as int), max)
                &&& first < r.0 <= jobs@.len()
                &&& r.0 - first <= MAX_TILES_PER_BATCH
                &&& r.1 == worth_a_pass(weights(jobs@), max, first as nat, r.0 as nat)
            },
        },
{
    match budget {
        None => (jobs.len(), false),
        Some(max) => {
            let rest = vstd::slice::slice_subrange(jobs, first, jobs.len());
            assert(weights(rest@) =~= weights(jobs@).skip(first as int));
            let end = first + chunk_size(rest, max);
            let chunk = vstd::slice::slice_subrange(jobs, first, end);
            assert(weights(chunk@) =~= weights(jobs@).subrange(first as int, end as int));
            (end, end - first > CPU_FALLBACK_MAX_TILES && vert_bytes(chunk) <= max)
        },
    }
}

/// More tiles fill no fewer rows.
proof fn lemma_rows_used_grow(i: nat, n: nat)
    requires
        i <= n,
    ensures
        rows_used(i) <= rows_used(n),
{
    assert((i + 15) / 16 <= (n + 15) / 16);
}

/// The chunk around a job holds it, and is the chunk that is cut at its first
/// job.
proof fn lemma_chunk_around(weights: Seq<nat>, max: u64, start: nat, i: nat)
    requires
        start <= i < weights.len(),
    ensures
        ({
            let (first, end) = chunk_around(weights, max, start, i);
            &&& start <= first <= i < end <= weights.len()
            &&& end == first + chunk_len(weights.skip(first as int), max)
            &&& end - first <= MAX_TILES_PER_BATCH
        }),
    decreases weights.len() - start,
{
    chunk_is_longest_that_fits(weights.skip(start as int), max);
    let end = start + chunk_len(weights.skip(start as int), max);
    if i >= end {
        lemma_chunk_around(weights, max, end, i);
    }
}

/// Every job of a chunk falls into that chunk, and the job behind it starts the
/// next one.
proof fn lemma_chunk_goes_on(weights: Seq<nat>, max: u64, start: nat, i: nat, j: nat)
    requires
        start <= i < weights.len(),
        i <= j < weights.len(),
        j <= chunk_around(weights, max, start, i).1,
    ensures
        ({
            let (first, end) = chunk_around(weights, max, start, i);
            if j < end {
                chunk_around(weights, max, start, j) == (first, end)
            } else {
                chunk_around(weights, max, start, j) == (
                    end,
                    end + chunk_len(weights.skip(end as int), max),
                )
            }
        }),
    decreases weights.len() - start,
{
    chunk_is_longest_that_fits(weights.skip(start as int), max);
    let end = start + chunk_len(weights.skip(start as int), max);
    if i < end {
        if j == end {
            chunk_is_longest_that_fits(weights.skip(end as int), max);
            assert(chunk_around(weights, max, end, j) == (
                end,
                end + chunk_len(weights.skip(end as int), max),
            ));
        }
    } else {
        lemma_chunk_around(weights, max, end, i);
        lemma_chunk_goes_on(weights, max, end, i, j);
    }
}

/// A render pass never takes more tiles than the meta texture has cells, nor
/// more geometry than the budget; it is never tiny; and it takes jobs of the
/// batch, among them the next one.
pub proof fn passes_respect_the_limits(weights: Seq<nat>, max: u64, done: nat)
    requires
        weights.len() <= usize::MAX,
        step_after(weights, Some(max), done) is Pass,
    ensures
        step_after(weights, Some(max), done) matches Step::Pass { first, count } && {
            &&& CPU_FALLBACK_MAX_TILES < count <= MAX_TILES_PER_BATCH
            &&& first <= done < first + count <= weights.len()
            &&& total(weights.subrange(first as int, first + count)) <= max
        },
{
    lemma_chunk_around(weights, max, 0, done);
}

/// Without a GPU every tile is stroked on the CPU, in input order.
pub proof fn without_gpu_every_tile_is_stroked(weights: Seq<nat>, done: nat)
    requires
        done < weights.len() <= usize::MAX,
    ensures
        step_after(weights, None, done) == Step::Stroke(done as usize),
{
}

/// A batch is done exactly when every job has its tile.
pub proof fn done_when_every_job_has_its_tile(weights: Seq<nat>, budget: Option<u64>, done: nat)
    ensures
        step_after(weights, budget, done) is Done <==> done >= weights.len(),
{
}

/// A chunk of at most two tiles, and a lone job over the vertex budget, are
/// left to the CPU.
pub proof fn small_and_oversized_chunks_are_stroked(weights: Seq<nat>, max: u64, done: nat)
    requires
        done < weights.len() <= usize::MAX,
        ({
            let (first, end) = chunk_around(weights, max, 0, done);
            end - first <= CPU_FALLBACK_MAX_TILES || weights[done as int] > max
        }),
    ensures
        step_after(weights, Some(max), done) == Step::Stroke(done as usize),
{
    lemma_chunk_around(weights, max, 0, done);
    let (first, end) = chunk_around(weights, max, 0, done);
    if weights[done as int] > max {
        lemma_member_is_at_most_total(
            weights.subrange(first as int, end as int),
            (done - first) as int,
        );
    }
}

/// No weight is more than the sum of all.
proof fn lemma_member_is_at_most_total(weights: Seq<nat>, i: int)
    requires
        0 <= i < weights.len(),
    ensures
        weights[i] <= total(weights),
    decreases weights.len(),
{
    if i < weights.len() - 1 {
        lemma_member_is_at_most_total(weights.drop_last(), i);
    }
}

/// Chunks follow one behind the other: each job lies in one of them, which
/// starts at the first job or where the chunk before it ends, and is the longest
/// that fits one pass from there.
pub proof fn chunks_follow_each_other(weights: Seq<nat>, max: u64, i: nat)
    requires
        i < weights.len(),
    ensures
        ({
            let (first, end) = chunk_around(weights, max, 0, i);
            &&& first <= i < end <= weights.len()
            &&& end == first + chunk_len(weights.skip(first as int), max)
            &&& end - first <= 256
            &&& end - first == 1 || total(weights.subrange(first as int, end as int)) <= max
            &&& end < weights.len() && end - first < 256 ==> total(
                weights.subrange(first as int, end as int + 1),
            ) > max
            &&& first == 0 || chunk_around(weights, max, 0, (first - 1) as nat).1 == first
        }),
{
    lemma_chunk_around(weights, max, 0, i);
    lemma_chunk_before(weights, max, 0, i);
    let (first, end) = chunk_around(weights, max, 0, i);
    let rest = weights.skip(first as int);
    a_chunk_cannot_be_longer(rest, max);
    let n = end - first;
    assert(rest.take(n) =~= weights.subrange(first as int, end as int));
    if end < weights.len() {
        assert(rest.take(n + 1) =~= weights.subrange(first as int, end as int + 1));
    }
}

/// The chunk before the one around a job ends where that starts.
proof fn lemma_chunk_before(weights: Seq<nat>, max: u64, start: nat, i: nat)
    requires
        start <= i < weights.len(),
    ensures
        ({
            let first = chunk_around(weights, max, start, i).0;
            first == start || chunk_around(weights, max, start, (first - 1) as nat).1 == first
        }),
    decreases weights.len() - start,
{
    chunk_is_longest_that_fits(weights.skip(start as int), max);
    let end = start + chunk_len(weights.skip(start as int), max);
    if i >= end {
        lemma_chunk_before(weights, max, end, i);
        lemma_chunk_around(weights, max, end, i);
        let first = chunk_around(weights, max, end, i).0;
        if first > end {
            assert(chunk_around(weights, max, start, (first - 1) as nat) == chunk_around(
                weights,
                max,
                end,
                (first - 1) as nat,
            ));
        }
    }
}

/// With a GPU the next job is drawn together with its whole chunk where that
/// has more than two tiles within the budget, and stroked alone otherwise.
pub proof fn steps_follow_the_chunks(weights: Seq<nat>, max: u64, done: nat)
    requires
        done < weights.len() <= usize::MAX,
    ensures
        ({
            let (first, end) = chunk_around(weights, max, 0, done);
            let heavy = total(weights.subrange(first as int, end as int)) > max;
            match step_after(weights, Some(max), done) {
                Step::Stroke(i) => i == done && (end - first <= 2 || heavy),
                Step::Pass { first: from, count } => {
                    from == first && count == end - first && end - first > 2 && !heavy
                },
                Step::Done => false,
            }
        }),
{
    lemma_chunk_around(weights, max, 0, done);
}

/// The value of a tile is its column, its row and its coverage.
pub proof fn tile_values_tell_the_tiles(tiles: Seq<RenderedTile>, i: int)
    requires
        0 <= i < tiles.len(),
    ensures
        tile_values(tiles).len() == tiles.len(),
        tile_values(tiles)[i] == (tiles[i].x, tiles[i].y, tiles[i].coverage@),
{
}

} // verus!
