//! Splitting a projected track into per-tile polylines.
use crate::bin_codec::rows;
use crate::ieee::{
    at_least, at_least32, equal, equal64, non_negative, non_negative64, truncate, truncated64,
};
use rustc_hash::FxHashMap;
use vstd::prelude::*;

verus! {

/// A point in tile-local pixel coords, `(0, 0)` at the tile's top-left. Each
/// coordinate is the bits of a single-precision number.
pub type Pixel = (u32, u32);

/// One polyline in tile-local pixel coords.
pub type Polyline = Vec<Pixel>;

/// Polylines grouped by `(tile_x, tile_y)` at one zoom level: what
/// [`bucketize_track`] accumulates into and what the renderers consume.
pub type TileBuckets = FxHashMap<(u32, u32), Vec<Polyline>>;

/// One point of a track, placed at one zoom level.
#[derive(Clone, Copy, Debug)]
pub struct TrackPoint {
    /// Column and row of the tile that the point lies in: the point's base
    /// coords times the number of tiles per axis, rounded down. Each is the
    /// bits of a double-precision number.
    pub tile: (u64, u64),
    /// The point in the pixel coords of its own tile.
    pub here: Pixel,
    /// The point in the pixel coords of the tile of the point before it. Not
    /// read of the first point.
    pub in_previous: Pixel,
    /// The point before it in the pixel coords of its own tile. Not read of
    /// the first point.
    pub previous_here: Pixel,
}

impl TrackPoint {
    /// Whether two points lie in the same tile.
    pub open spec fn same_tile(self, other: TrackPoint) -> bool {
        equal64(self.tile.0, other.tile.0) && equal64(self.tile.1, other.tile.1)
    }

    /// Whether the tile has no negative index (latitudes past the Mercator
    /// limit have).
    pub open spec fn on_map(self) -> bool {
        non_negative64(self.tile.0) && non_negative64(self.tile.1)
    }

    /// The tile as a key.
    pub open spec fn key(self) -> (u32, u32) {
        (truncated64(self.tile.0), truncated64(self.tile.1))
    }
}

/// Whether `placed` are the points of a track in their tiles: each point in the
/// coords of its own tile, in those of the tile that the point before it lies
/// in, and the point before it in those of its own tile. `tile` gives the tile
/// of a point, and `pixel` a point in the coords of a tile.
pub open spec fn is_placed<T: Fn(usize) -> (u64, u64), P: Fn(usize, (u64, u64)) -> Pixel>(
    placed: Seq<TrackPoint>,
    tile: T,
    pixel: P,
) -> bool {
    &&& forall|i: int| 0 <= i < placed.len() ==> tile.ensures((i as usize,), #[trigger] placed[i].tile)
    &&& forall|i: int|
        0 <= i < placed.len() ==> pixel.ensures((i as usize, placed[i].tile), #[trigger] placed[i].here)
    &&& forall|i: int|
        1 <= i < placed.len() ==> pixel.ensures(
            (i as usize, placed[i - 1].tile),
            #[trigger] placed[i].in_previous,
        )
    &&& forall|i: int|
        1 <= i < placed.len() ==> pixel.ensures(
            ((i - 1) as usize, placed[i].tile),
            #[trigger] placed[i].previous_here,
        )
}

/// Places the `n` points of a track in their tiles, for [`bucketize_track`].
///
/// `tile` gives the column and row of the tile of point `i`, and `pixel` point
/// `i` in the pixel coords of a tile, whichever tile it lies in itself: the far
/// endpoint of a crossing is wanted in the OLD tile's coords, and the near one
/// in the NEW tile's.
pub fn place_track<T: Fn(usize) -> (u64, u64), P: Fn(usize, (u64, u64)) -> Pixel>(
    n: usize,
    tile: T,
    pixel: P,
) -> (r: Vec<TrackPoint>)
    requires
        forall|i: usize| i < n ==> #[trigger] tile.requires((i,)),
        forall|i: usize, t: (u64, u64)| i < n ==> #[trigger] pixel.requires((i, t)),
    ensures
        r@.len() == n,
        is_placed(r@, tile, pixel),
        forall|i: int| 0 <= i < n ==> tile.ensures((i as usize,), #[trigger] r@[i].tile),
        forall|i: int|
            0 <= i < n ==> pixel.ensures((i as usize, r@[i].tile), #[trigger] r@[i].here),
        forall|i: int|
            1 <= i < n ==> pixel.ensures(
                (i as usize, r@[i - 1].tile),
                #[trigger] r@[i].in_previous,
            ),
        forall|i: int|
            1 <= i < n ==> pixel.ensures(
                ((i - 1) as usize, r@[i].tile),
                #[trigger] r@[i].previous_here,
            ),
{
    let mut placed: Vec<TrackPoint> = Vec::with_capacity(n);
    let mut i: usize = 0;
    while i < n
        invariant
            i <= n,
            placed@.len() == i,
            forall|i: usize| i < n ==> #[trigger] tile.requires((i,)),
            forall|i: usize, t: (u64, u64)| i < n ==> #[trigger] pixel.requires((i, t)),
            is_placed(placed@, tile, pixel),
        decreases n - i,
    {
        let own = tile(i);
        let here = pixel(i, own);
        let (in_previous, previous_here) = if i == 0 {
            (here, here)
        } else {
            (pixel(i, placed[i - 1].tile), pixel(i - 1, own))
        };
        let ghost before = placed@;
        let point = TrackPoint { tile: own, here, in_previous, previous_here };
        placed.push(point);
        proof {
            lemma_placed_goes_on(before, point, tile, pixel);
        }
        i = i + 1;
    }
    placed
}

/// One more point that was placed leaves the points before it placed.
proof fn lemma_placed_goes_on<T: Fn(usize) -> (u64, u64), P: Fn(usize, (u64, u64)) -> Pixel>(
    before: Seq<TrackPoint>,
    point: TrackPoint,
    tile: T,
    pixel: P,
)
    requires
        is_placed(before, tile, pixel),
        tile.ensures((before.len() as usize,), point.tile),
        pixel.ensures((before.len() as usize, point.tile), point.here),
        before.len() > 0 ==> pixel.ensures(
            (before.len() as usize, before.last().tile),
            point.in_previous,
        ),
        before.len() > 0 ==> pixel.ensures(
            ((before.len() - 1) as usize, point.tile),
            point.previous_here,
        ),
    ensures
        is_placed(before.push(point), tile, pixel),
{
}

/// The hasher of [`TileBuckets`].
#[verifier::external_type_specification]
#[verifier::external_body]
pub struct ExFxBuildHasher(rustc_hash::FxBuildHasher);

/// The polylines of each tile.
pub type TileLines = Map<(u32, u32), Seq<Seq<Pixel>>>;

/// The polylines that `buckets` holds for each tile.
pub uninterp spec fn filed(buckets: TileBuckets) -> Map<(u32, u32), Seq<Seq<Pixel>>>;

/// Makes a map with `HashMap::default`, which is empty.
#[verifier::external_body]
fn default_buckets() -> (r: TileBuckets)
    ensures
        filed(r) == TileLines::empty(),
{
    TileBuckets::default()
}

/// Buckets that hold nothing yet.
pub fn empty_buckets() -> (r: TileBuckets)
    ensures
        filed(r) == TileLines::empty(),
{
    default_buckets()
}

/// Takes the polylines of a tile out, with `HashMap::remove`: what the key
/// mapped to, or `None` where it was not there; the other keys stay as they
/// are.
#[verifier::external_body]
fn take_lines(buckets: &mut TileBuckets, key: (u32, u32)) -> (r: Option<Vec<Polyline>>)
    ensures
        filed(*final(buckets)) == filed(*old(buckets)).remove(key),
        match r {
            Some(lines) => filed(*old(buckets)).contains_key(key) && rows(lines@) == filed(
                *old(buckets),
            )[key],
            None => !filed(*old(buckets)).contains_key(key),
        },
{
    buckets.remove(&key)
}

/// Files the polylines of a tile, with `HashMap::insert`: the key maps to
/// them afterwards, and the other keys stay as they are.
#[verifier::external_body]
fn put_lines(buckets: &mut TileBuckets, key: (u32, u32), lines: Vec<Polyline>)
    ensures
        filed(*final(buckets)) == filed(*old(buckets)).insert(key, rows(lines@)),
{
    buckets.insert(key, lines);
}

/// The polylines under `key`: none where it is missing.
pub open spec fn lines_at(map: TileLines, key: (u32, u32)) -> Seq<Seq<Pixel>> {
    if map.contains_key(key) {
        map[key]
    } else {
        Seq::empty()
    }
}

/// `map` with one more polyline under `key`.
pub open spec fn with_line(
    map: TileLines,
    key: (u32, u32),
    line: Seq<Pixel>,
) -> TileLines {
    map.insert(key, lines_at(map, key).push(line))
}

/// A polyline together with the tile it belongs to.
pub type Run = ((u32, u32), Seq<Pixel>);

/// `map` with the polylines of `runs`, filed in their order.
pub open spec fn with_runs(map: TileLines, runs: Seq<Run>) -> TileLines
    decreases runs.len(),
{
    if runs.len() == 0 {
        map
    } else {
        with_line(with_runs(map, runs.drop_last()), runs.last().0, runs.last().1)
    }
}

/// Whether the track enters another tile at point `i`.
pub open spec fn crosses(track: Seq<TrackPoint>, i: int) -> bool {
    !track[i].same_tile(track[i - 1])
}

/// The run that is open once point `i` has been visited, where `kept` says of
/// each point inside a tile whether it was far enough from the one before.
pub open spec fn open_run(track: Seq<TrackPoint>, kept: Seq<bool>, i: int) -> Seq<Pixel>
    decreases i,
{
    if i <= 0 {
        seq![track[0].here]
    } else if crosses(track, i) {
        seq![track[i].previous_here, track[i].here]
    } else if kept[i] {
        open_run(track, kept, i - 1).push(track[i].here)
    } else {
        open_run(track, kept, i - 1)
    }
}

/// The runs that are closed once point `i` has been visited: each ends with
/// the point across its tile's edge, and is dropped where its tile is off the
/// map.
pub open spec fn closed_runs(track: Seq<TrackPoint>, kept: Seq<bool>, i: int) -> Seq<Run>
    decreases i,
{
    if i <= 0 {
        Seq::empty()
    } else if crosses(track, i) && track[i - 1].on_map() {
        closed_runs(track, kept, i - 1).push(
            (track[i - 1].key(), open_run(track, kept, i - 1).push(track[i].in_previous)),
        )
    } else {
        closed_runs(track, kept, i - 1)
    }
}

/// All runs of a track.
pub open spec fn runs(track: Seq<TrackPoint>, kept: Seq<bool>) -> Seq<Run> {
    let last = track.len() - 1;
    if track.len() < 2 {
        Seq::empty()
    } else if open_run(track, kept, last).len() > 1 && track[last].on_map() {
        closed_runs(track, kept, last).push((track[last].key(), open_run(track, kept, last)))
    } else {
        closed_runs(track, kept, last)
    }
}

/// Whether `keep` is what comparing a squared distance that `dist2` gives
/// between two points with `min_px2` can say.
pub open spec fn measured<D: Fn(Pixel, Pixel) -> u32>(
    dist2: D,
    point: Pixel,
    last: Pixel,
    min_px2: u32,
    keep: bool,
) -> bool {
    exists|d: u32| #[trigger] dist2.ensures((point, last), d) && keep == at_least32(d, min_px2)
}

/// Whether `kept` says of each of the first `n` points that stays in its tile
/// whether it is at least the threshold away from the last kept point.
pub open spec fn thinned<D: Fn(Pixel, Pixel) -> u32>(
    track: Seq<TrackPoint>,
    dist2: D,
    min_px2: u32,
    kept: Seq<bool>,
    n: int,
) -> bool {
    forall|i: int|
        1 <= i < n && !crosses(track, i) ==> measured(
            dist2,
            track[i].here,
            open_run(track, kept, i - 1).last(),
            min_px2,
            #[trigger] kept[i],
        )
}

/// Whether splitting the track can leave a map that held `before` with `after`:
/// its runs are filed behind what was there.
pub open spec fn split<D: Fn(Pixel, Pixel) -> u32>(
    track: Seq<TrackPoint>,
    dist2: D,
    min_px2: u32,
    before: TileLines,
    after: TileLines,
) -> bool {
    exists|kept: Seq<bool>|
        {
            &&& #[trigger] kept.len() == track.len()
            &&& thinned(track, dist2, min_px2, kept, track.len() as int)
            &&& after == with_runs(before, runs(track, kept))
        }
}

/// Files one more polyline under a tile.
fn push_line(buckets: &mut TileBuckets, key: (u32, u32), line: Polyline)
    ensures
        filed(*final(buckets)) == with_line(filed(*old(buckets)), key, line@),
{
    let mut lines: Vec<Polyline> = match take_lines(buckets, key) {
        Some(lines) => lines,
        None => Vec::new(),
    };
    let ghost before = rows(lines@);
    assert(!filed(*old(buckets)).contains_key(key) ==> before =~= Seq::empty());
    lines.push(line);
    assert(rows(lines@) =~= before.push(line@));
    put_lines(buckets, key, lines);
    assert(filed(*buckets) =~= with_line(filed(*old(buckets)), key, line@));
}

/// Splits one projected track into per-tile polylines, appending each maximal
/// in-tile run to `buckets` keyed by `(tile_x, tile_y)`.
///
/// When a segment crosses to a new tile the current run is closed with the
/// crossing endpoint (in the OLD tile's coords) and filed, then a new run is
/// seeded with the points on both sides of the edge, so the crossing draws in
/// BOTH tiles (the per-tile clip drops the off-tile part). Without this,
/// strokes would visibly break at every tile seam.
///
/// `dist2` gives the squared pixel distance of two points, as the bits of a
/// single-precision number. `min_px2`, bits too, drops a candidate point whose
/// squared distance from the last kept point is below the threshold (no visible
/// detail, just stroke work). Boundary crossings and the first point of each
/// run are always kept.
///
/// Tracks shorter than 2 points are ignored. Runs in tiles with a negative
/// index (latitudes past the Mercator limit) are dropped.
///
/// `buckets` is appended to, never cleared, so many tracks accumulate into one
/// map by calling this repeatedly.
pub fn bucketize_track<D: Fn(Pixel, Pixel) -> u32>(
    track: &[TrackPoint],
    dist2: D,
    min_px2: u32,
    buckets: &mut TileBuckets,
)
    requires
        forall|p: Pixel, q: Pixel| dist2.requires((p, q)),
    ensures
        split(track@, dist2, min_px2, filed(*old(buckets)), filed(*final(buckets))),
{
    let ghost start = filed(*buckets);
    let ghost mut kept = Seq::new(track@.len(), |i: int| true);
    if track.len() < 2 {
        assert(kept.len() == track@.len());
        return ;
    }
    let mut run: Vec<Pixel> = Vec::new();
    run.push(track[0].here);
    assert(run@ =~= seq![track@[0].here]);
    assert(open_run(track@, kept, 0) == seq![track@[0].here]);
    let mut i: usize = 1;
    while i < track.len()
        invariant
            1 <= i <= track@.len(),
            kept.len() == track@.len(),
            forall|p: Pixel, q: Pixel| dist2.requires((p, q)),
            run@.len() > 0,
            run@ == open_run(track@, kept, i - 1),
            thinned(track@, dist2, min_px2, kept, i as int),
            filed(*buckets) == with_runs(start, closed_runs(track@, kept, i - 1)),
        decreases track@.len() - i,
    {
        let current = track[i];
        let previous = track[i - 1];
        let ghost before = kept;
        if equal(current.tile.0, previous.tile.0) && equal(current.tile.1, previous.tile.1) {
            let last = run[run.len() - 1];
            let distance = dist2(current.here, last);
            let keep = at_least(distance, min_px2);
            proof {
                kept = kept.update(i as int, keep);
                lemma_later_points_do_not_matter(track@, before, kept, i - 1);
                assert(measured(dist2, current.here, last, min_px2, keep));
            }
            if keep {
                run.push(current.here);
            }
            assert(run@ =~= open_run(track@, kept, i as int));
        } else {
            run.push(current.in_previous);
            if non_negative(previous.tile.0) && non_negative(previous.tile.1) {
                let key = (truncate(previous.tile.0), truncate(previous.tile.1));
                let ghost closed = closed_runs(track@, kept, i - 1);
                push_line(buckets, key, run);
                assert(closed_runs(track@, kept, i as int).drop_last() =~= closed);
            }
            run = Vec::new();
            run.push(current.previous_here);
            run.push(current.here);
            assert(run@ =~= open_run(track@, kept, i as int));
        }
        proof {
            lemma_thinned_goes_on(track@, dist2, min_px2, before, kept, i as int);
        }
        i = i + 1;
    }
    let last = track[track.len() - 1];
    let ghost closed = closed_runs(track@, kept, i - 1);
    if run.len() > 1 && non_negative(last.tile.0) && non_negative(last.tile.1) {
        push_line(buckets, (truncate(last.tile.0), truncate(last.tile.1)), run);
        assert(runs(track@, kept).drop_last() =~= closed);
    }
    assert(kept.len() == track@.len());
}

/// What is open and closed after point `i` does not depend on what is said of
/// the points behind it.
proof fn lemma_later_points_do_not_matter(
    track: Seq<TrackPoint>,
    first: Seq<bool>,
    second: Seq<bool>,
    i: int,
)
    requires
        forall|j: int| 1 <= j <= i ==> first[j] == second[j],
    ensures
        open_run(track, first, i) == open_run(track, second, i),
        closed_runs(track, first, i) == closed_runs(track, second, i),
    decreases i,
{
    if i > 0 {
        lemma_later_points_do_not_matter(track, first, second, i - 1);
    }
}

/// One more point that was measured, or crossed into another tile, leaves the
/// points before it as they were judged.
proof fn lemma_thinned_goes_on<D: Fn(Pixel, Pixel) -> u32>(
    track: Seq<TrackPoint>,
    dist2: D,
    min_px2: u32,
    before: Seq<bool>,
    kept: Seq<bool>,
    i: int,
)
    requires
        thinned(track, dist2, min_px2, before, i),
        forall|j: int| 1 <= j < i ==> before[j] == kept[j],
        !crosses(track, i) ==> measured(
            dist2,
            track[i].here,
            open_run(track, before, i - 1).last(),
            min_px2,
            kept[i],
        ),
    ensures
        thinned(track, dist2, min_px2, kept, i + 1),
{
    assert forall|j: int| 1 <= j < i + 1 && !crosses(track, j) implies measured(
        dist2,
        track[j].here,
        open_run(track, kept, j - 1).last(),
        min_px2,
        #[trigger] kept[j],
    ) by {
        lemma_later_points_do_not_matter(track, before, kept, j - 1);
        assert(j < i ==> before[j] == kept[j]);
    }
}

} // verus!
