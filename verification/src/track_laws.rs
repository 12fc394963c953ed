//! What splitting a track promises of the polylines it files.
use crate::ieee::{is_nan32, order32};
use crate::track::{
    closed_runs, crosses, is_placed, lines_at, measured, open_run, runs, split, thinned, with_runs, Pixel, Run,
    TileLines, TrackPoint,
};
use vstd::prelude::*;

verus! {

/// Points in the same tile have the same key, and are on the map together.
proof fn lemma_same_tile_same_key(first: TrackPoint, second: TrackPoint)
    requires
        first.same_tile(second),
    ensures
        first.key() == second.key(),
        first.on_map() == second.on_map(),
{
}

/// A run that was closed stays closed.
proof fn lemma_closed_runs_stay(track: Seq<TrackPoint>, kept: Seq<bool>, i: int, j: int)
    requires
        i <= j,
    ensures
        closed_runs(track, kept, i).is_prefix_of(closed_runs(track, kept, j)),
    decreases j - i,
{
    if i < j {
        lemma_closed_runs_stay(track, kept, i, j - 1);
    }
}

/// A run that is open after point `i`, in a tile on the map, is the beginning
/// of a filed run, unless it is one lone point that nothing follows.
proof fn lemma_open_run_is_filed(track: Seq<TrackPoint>, kept: Seq<bool>, i: int) -> (k: int)
    requires
        2 <= track.len(),
        0 <= i < track.len(),
        track[i].on_map(),
        open_run(track, kept, i).len() > 1 || (i + 1 < track.len() && crosses(track, i + 1)),
    ensures
        0 <= k < runs(track, kept).len(),
        runs(track, kept)[k].0 == track[i].key(),
        open_run(track, kept, i).is_prefix_of(runs(track, kept)[k].1),
        i + 1 < track.len() && crosses(track, i + 1) ==> runs(track, kept)[k].1 == open_run(
            track,
            kept,
            i,
        ).push(track[i + 1].in_previous),
    decreases track.len() - i,
{
    let last = track.len() - 1;
    if i == last {
        runs(track, kept).len() - 1
    } else if crosses(track, i + 1) {
        let closed = closed_runs(track, kept, i + 1);
        lemma_closed_runs_stay(track, kept, i + 1, last);
        let k = closed.len() - 1;
        assert(closed_runs(track, kept, last)[k] == closed[k]);
        k
    } else {
        lemma_same_tile_same_key(track[i + 1], track[i]);
        lemma_open_run_is_filed(track, kept, i + 1)
    }
}

/// An open run has a point.
proof fn lemma_open_run_has_a_point(track: Seq<TrackPoint>, kept: Seq<bool>, i: int)
    ensures
        open_run(track, kept, i).len() > 0,
    decreases i,
{
    if i > 0 {
        lemma_open_run_has_a_point(track, kept, i - 1);
    }
}

/// A segment that crosses from one tile to another draws in both: the run of
/// the tile that it leaves ends with the far endpoint, and a run of the tile
/// that it enters starts with both endpoints. Each holds where that tile is on
/// the map.
pub proof fn crossing_draws_in_both_tiles(track: Seq<TrackPoint>, kept: Seq<bool>, i: int)
    requires
        1 <= i < track.len(),
        crosses(track, i),
    ensures
        track[i - 1].on_map() ==> exists|k: int|
            0 <= k < runs(track, kept).len() && (#[trigger] runs(track, kept)[k]).0 == track[i
                - 1].key() && runs(track, kept)[k].1.len() >= 2 && runs(track, kept)[k].1.last()
                == track[i].in_previous,
        track[i].on_map() ==> exists|k: int|
            0 <= k < runs(track, kept).len() && (#[trigger] runs(track, kept)[k]).0
                == track[i].key() && runs(track, kept)[k].1.len() >= 2 && runs(track, kept)[k].1[0]
                == track[i].previous_here && runs(track, kept)[k].1[1] == track[i].here,
{
    if track[i - 1].on_map() {
        let k = lemma_open_run_is_filed(track, kept, i - 1);
        lemma_open_run_has_a_point(track, kept, i - 1);
        assert(runs(track, kept)[k].1.last() == track[i].in_previous);
    }
    if track[i].on_map() {
        let k = lemma_open_run_is_filed(track, kept, i);
        let open = open_run(track, kept, i);
        assert(runs(track, kept)[k].1[0] == open[0] && runs(track, kept)[k].1[1] == open[1]);
    }
}

/// The endpoints of a crossing are placed for the tile that they are drawn in:
/// the far one, at the end of the run that it closes, in the coords of the OLD
/// tile, and both, at the start of the next run, in those of the NEW tile.
pub proof fn crossing_endpoints_are_in_the_coords_of_each_tile<
    T: Fn(usize) -> (u64, u64),
    P: Fn(usize, (u64, u64)) -> Pixel,
>(track: Seq<TrackPoint>, tile: T, pixel: P, kept: Seq<bool>, i: int)
    requires
        is_placed(track, tile, pixel),
        1 <= i < track.len(),
        crosses(track, i),
    ensures
        track[i - 1].on_map() ==> exists|k: int|
            0 <= k < runs(track, kept).len() && (#[trigger] runs(track, kept)[k]).0 == track[i
                - 1].key() && pixel.ensures(
                (i as usize, track[i - 1].tile),
                runs(track, kept)[k].1.last(),
            ),
        track[i].on_map() ==> exists|k: int|
            0 <= k < runs(track, kept).len() && (#[trigger] runs(track, kept)[k]).0
                == track[i].key() && pixel.ensures(
                ((i - 1) as usize, track[i].tile),
                runs(track, kept)[k].1[0],
            ) && pixel.ensures((i as usize, track[i].tile), runs(track, kept)[k].1[1]),
{
    crossing_draws_in_both_tiles(track, kept, i);
    let far = track[i].in_previous;
    assert(pixel.ensures((i as usize, track[i - 1].tile), track[i].in_previous));
}

/// The place of a kept point in the run that is open behind it.
proof fn lemma_kept_point_is_in_open_run(track: Seq<TrackPoint>, kept: Seq<bool>, i: int)
    requires
        0 <= i < track.len(),
        i == 0 || crosses(track, i) || kept[i],
    ensures
        open_run(track, kept, i).last() == track[i].here,
{
}

/// A point that was kept is drawn in its tile, where that is on the map. The
/// first point of a track needs a second one that was kept or lies in another
/// tile: a lone point is no line.
pub proof fn kept_points_are_drawn(track: Seq<TrackPoint>, kept: Seq<bool>, i: int)
    requires
        2 <= track.len(),
        0 <= i < track.len(),
        track[i].on_map(),
        if i == 0 {
            crosses(track, 1) || kept[1]
        } else {
            crosses(track, i) || kept[i]
        },
    ensures
        exists|k: int|
            0 <= k < runs(track, kept).len() && (#[trigger] runs(track, kept)[k]).0
                == track[i].key() && runs(track, kept)[k].1.contains(track[i].here),
{
    lemma_kept_point_is_in_open_run(track, kept, i);
    lemma_open_run_has_a_point(track, kept, i);
    if i > 0 {
        lemma_open_run_has_a_point(track, kept, i - 1);
    }
    let open = open_run(track, kept, i);
    let k = if i == 0 && !crosses(track, 1) {
        lemma_same_tile_same_key(track[1], track[0]);
        let k = lemma_open_run_is_filed(track, kept, 1);
        assert(open_run(track, kept, 1)[0] == track[0].here);
        assert(runs(track, kept)[k].1[0] == track[0].here);
        k
    } else {
        let k = lemma_open_run_is_filed(track, kept, i);
        assert(runs(track, kept)[k].1[open.len() - 1] == track[i].here);
        k
    };
    assert(runs(track, kept)[k].1.contains(track[i].here));
}

/// A threshold of zero keeps every point, as long as squared distances are
/// numbers and none is negative: every point on the map is drawn in its tile.
pub proof fn zero_threshold_keeps_every_point<D: Fn(Pixel, Pixel) -> u32>(
    track: Seq<TrackPoint>,
    dist2: D,
    kept: Seq<bool>,
)
    requires
        2 <= track.len(),
        kept.len() == track.len(),
        forall|p: Pixel, q: Pixel, d: u32| #[trigger]
            dist2.ensures((p, q), d) ==> !is_nan32(d) && order32(d) >= 0,
        thinned(track, dist2, 0, kept, track.len() as int),
    ensures
        forall|i: int| 1 <= i < track.len() && !crosses(track, i) ==> #[trigger] kept[i],
        forall|i: int|
            0 <= i < track.len() && (#[trigger] track[i]).on_map() ==> exists|k: int|
                0 <= k < runs(track, kept).len() && (#[trigger] runs(track, kept)[k]).0
                    == track[i].key() && runs(track, kept)[k].1.contains(track[i].here),
{
    assert forall|i: int| 1 <= i < track.len() && !crosses(track, i) implies #[trigger] kept[i] by {
        let last = open_run(track, kept, i - 1).last();
        assert(measured(dist2, track[i].here, last, 0, kept[i]));
    }
    assert forall|i: int| 0 <= i < track.len() && (#[trigger] track[i]).on_map() implies exists|k: int|

        0 <= k < runs(track, kept).len() && (#[trigger] runs(track, kept)[k]).0 == track[i].key()
            && runs(track, kept)[k].1.contains(track[i].here) by {
        assert(crosses(track, 1) || kept[1]);
        kept_points_are_drawn(track, kept, i);
    }
}

/// Every closed run is a line in the tile, on the map, of some visited point.
proof fn lemma_closed_runs_are_lines(track: Seq<TrackPoint>, kept: Seq<bool>, i: int, k: int)
    requires
        0 <= i < track.len(),
        0 <= k < closed_runs(track, kept, i).len(),
    ensures
        closed_runs(track, kept, i)[k].1.len() >= 2,
        exists|j: int|
            0 <= j < i && (#[trigger] track[j]).on_map() && closed_runs(track, kept, i)[k].0
                == track[j].key(),
    decreases i,
{
    if i > 0 {
        if k < closed_runs(track, kept, i - 1).len() {
            lemma_closed_runs_are_lines(track, kept, i - 1, k);
        } else {
            lemma_open_run_has_a_point(track, kept, i - 1);
            assert(closed_runs(track, kept, i)[k].0 == track[i - 1].key());
        }
    }
}

/// Every filed run has at least two points, and lies in the tile of a point of
/// the track that is on the map.
pub proof fn filed_runs_are_lines(track: Seq<TrackPoint>, kept: Seq<bool>, k: int)
    requires
        0 <= k < runs(track, kept).len(),
    ensures
        runs(track, kept)[k].1.len() >= 2,
        exists|i: int|
            0 <= i < track.len() && (#[trigger] track[i]).on_map() && runs(track, kept)[k].0
                == track[i].key(),
{
    let last = track.len() - 1;
    if k < closed_runs(track, kept, last).len() {
        lemma_closed_runs_are_lines(track, kept, last, k);
    } else {
        assert(track[last].on_map() && runs(track, kept)[k].0 == track[last].key());
    }
}

/// A track shorter than two points changes nothing.
pub proof fn short_tracks_are_ignored(
    map: TileLines,
    track: Seq<TrackPoint>,
    kept: Seq<bool>,
)
    requires
        track.len() < 2,
    ensures
        with_runs(map, runs(track, kept)) == map,
{
}

/// Without a crossing no run is closed, and the open one grows with each kept
/// point.
proof fn lemma_no_crossing(track: Seq<TrackPoint>, kept: Seq<bool>, i: int)
    requires
        0 <= i < track.len(),
        forall|j: int| 1 <= j <= i ==> !#[trigger] crosses(track, j),
    ensures
        closed_runs(track, kept, i).len() == 0,
        open_run(track, kept, i)[0] == track[0].here,
        open_run(track, kept, i).len() > 0,
        open_run(track, kept, i).len() > 1 <==> exists|j: int| 1 <= j <= i && #[trigger] kept[j],
        track[i].key() == track[0].key(),
        track[i].on_map() == track[0].on_map(),
    decreases i,
{
    if i > 0 {
        lemma_no_crossing(track, kept, i - 1);
        assert(!crosses(track, i));
        lemma_same_tile_same_key(track[i], track[i - 1]);
    }
}

/// Runs are maximal: a track that stays in one tile is one run, as long as the
/// tile is on the map and a second point was kept, and no run otherwise.
pub proof fn a_track_in_one_tile_is_one_run(track: Seq<TrackPoint>, kept: Seq<bool>)
    requires
        2 <= track.len(),
        forall|i: int| 1 <= i < track.len() ==> !#[trigger] crosses(track, i),
    ensures
        ({
            let last = track.len() - 1;
            runs(track, kept) == if track[0].on_map() && exists|i: int|
                1 <= i < track.len() && #[trigger] kept[i] {
                seq![(track[0].key(), open_run(track, kept, last))]
            } else {
                Seq::empty()
            }
        }),
{
    let last = track.len() - 1;
    lemma_no_crossing(track, kept, last);
    if track[0].on_map() && exists|i: int| 1 <= i < track.len() && #[trigger] kept[i] {
        let i = choose|i: int| 1 <= i < track.len() && #[trigger] kept[i];
        assert(1 <= i <= last && kept[i]);
        assert(runs(track, kept) =~= seq![(track[0].key(), open_run(track, kept, last))]);
    } else {
        assert(runs(track, kept) =~= Seq::empty());
    }
}

/// Filing appends: what a tile held before stays, in its order, at the front.
pub proof fn filing_never_clears(
    map: TileLines,
    filed: Seq<Run>,
    key: (u32, u32),
)
    requires
        map.contains_key(key),
    ensures
        with_runs(map, filed).contains_key(key),
        map[key].is_prefix_of(with_runs(map, filed)[key]),
    decreases filed.len(),
{
    if filed.len() > 0 {
        filing_never_clears(map, filed.drop_last(), key);
    }
}

/// Many tracks accumulate: filing the runs of one and then those of another is
/// filing both lists one behind the other.
pub proof fn filing_accumulates(
    map: TileLines,
    first: Seq<Run>,
    second: Seq<Run>,
)
    ensures
        with_runs(with_runs(map, first), second) == with_runs(map, first + second),
    decreases second.len(),
{
    if second.len() == 0 {
        assert(first + second =~= first);
    } else {
        filing_accumulates(map, first, second.drop_last());
        assert((first + second).drop_last() =~= first + second.drop_last());
    }
}

/// The polylines among `runs` that belong to one tile, in their order.
pub open spec fn lines_of(runs: Seq<Run>, key: (u32, u32)) -> Seq<Seq<Pixel>>
    decreases runs.len(),
{
    if runs.len() == 0 {
        Seq::empty()
    } else if runs.last().0 == key {
        lines_of(runs.drop_last(), key).push(runs.last().1)
    } else {
        lines_of(runs.drop_last(), key)
    }
}

/// A tile holds what it held before and, behind that, its own runs: nothing
/// else, and nothing of another tile.
pub proof fn a_tile_gains_its_own_runs(
    map: TileLines,
    filed: Seq<Run>,
    key: (u32, u32),
)
    ensures
        with_runs(map, filed).contains_key(key) <==> map.contains_key(key) || lines_of(
            filed,
            key,
        ).len() > 0,
        map.contains_key(key) ==> with_runs(map, filed)[key] == map[key] + lines_of(filed, key),
        !map.contains_key(key) && lines_of(filed, key).len() > 0 ==> with_runs(map, filed)[key]
            == lines_of(filed, key),
    decreases filed.len(),
{
    if filed.len() > 0 {
        a_tile_gains_its_own_runs(map, filed.drop_last(), key);
        let before = with_runs(map, filed.drop_last());
        if filed.last().0 == key {
            if map.contains_key(key) {
                assert(with_runs(map, filed)[key] =~= map[key] + lines_of(filed, key));
            } else {
                assert(with_runs(map, filed)[key] =~= lines_of(filed, key));
            }
        }
    } else {
        assert(map.contains_key(key) ==> map[key] + lines_of(filed, key) =~= map[key]);
    }
}

/// What two maps hold together: under each key the polylines of the first and,
/// behind them, those of the second.
pub open spec fn joined(
    first: TileLines,
    second: TileLines,
) -> TileLines {
    Map::new(
        |key: (u32, u32)| first.contains_key(key) || second.contains_key(key),
        |key: (u32, u32)| lines_at(first, key) + lines_at(second, key),
    )
}

/// Filing runs joins to a map what an empty map gets of them.
pub proof fn filing_joins_what_an_empty_map_gets(
    map: TileLines,
    filed: Seq<Run>,
)
    ensures
        with_runs(map, filed) == joined(map, with_runs(TileLines::empty(), filed)),
{
    let after = with_runs(map, filed);
    let fresh = with_runs(TileLines::empty(), filed);
    let both = joined(map, fresh);
    assert forall|key: (u32, u32)|
        #![trigger after.dom().contains(key)]
        #![trigger both.dom().contains(key)]
        #![trigger after[key]]
        after.dom().contains(key) == both.dom().contains(key) && (after.dom().contains(key)
            ==> after[key] == both[key]) by {
        a_tile_gains_its_own_runs(map, filed, key);
        a_tile_gains_its_own_runs(TileLines::empty(), filed, key);
        assert(lines_at(fresh, key) =~= lines_of(filed, key));
        if after.dom().contains(key) {
            assert(both[key] == lines_at(map, key) + lines_at(fresh, key));
            assert(after[key] =~= both[key]);
        }
    }
    assert(after.dom() =~= both.dom());
    assert(after =~= both);
}

/// What a call can do to a map is to join to it what it can give on an empty
/// map: nothing that was stored is removed, reordered or altered, and the only
/// new keys are those that an empty map gets.
pub proof fn a_call_joins_what_an_empty_map_gets<D: Fn(Pixel, Pixel) -> u32>(
    track: Seq<TrackPoint>,
    dist2: D,
    min_px2: u32,
    before: TileLines,
    after: TileLines,
)
    ensures
        split(track, dist2, min_px2, before, after) <==> exists|
            fresh: TileLines,
        | #[trigger]
            split(track, dist2, min_px2, TileLines::empty(), fresh) && after == joined(before, fresh),
{
    if split(track, dist2, min_px2, before, after) {
        let kept = choose|kept: Seq<bool>|
            {
                &&& #[trigger] kept.len() == track.len()
                &&& thinned(track, dist2, min_px2, kept, track.len() as int)
                &&& after == with_runs(before, runs(track, kept))
            };
        filing_joins_what_an_empty_map_gets(before, runs(track, kept));
        let fresh = with_runs(TileLines::empty(), runs(track, kept));
        assert(kept.len() == track.len());
        assert(split(track, dist2, min_px2, TileLines::empty(), fresh));
    }
    if exists|fresh: TileLines| #[trigger]
        split(track, dist2, min_px2, TileLines::empty(), fresh) && after == joined(before, fresh) {
        let fresh = choose|fresh: TileLines| #[trigger]
            split(track, dist2, min_px2, TileLines::empty(), fresh) && after == joined(before, fresh);
        let kept = choose|kept: Seq<bool>|
            {
                &&& #[trigger] kept.len() == track.len()
                &&& thinned(track, dist2, min_px2, kept, track.len() as int)
                &&& fresh == with_runs(TileLines::empty(), runs(track, kept))
            };
        filing_joins_what_an_empty_map_gets(before, runs(track, kept));
        assert(kept.len() == track.len());
    }
}

/// Whether a distance is a function of the two points.
pub open spec fn is_function<D: Fn(Pixel, Pixel) -> u32>(dist2: D) -> bool {
    forall|p: Pixel, q: Pixel, a: u32, b: u32| #[trigger]
        dist2.ensures((p, q), a) && #[trigger] dist2.ensures((p, q), b) ==> a == b
}

/// Measuring with a function leaves no choice of what is kept.
proof fn lemma_one_way_to_thin<D: Fn(Pixel, Pixel) -> u32>(
    track: Seq<TrackPoint>,
    dist2: D,
    min_px2: u32,
    first: Seq<bool>,
    second: Seq<bool>,
    i: int,
)
    requires
        is_function(dist2),
        0 <= i < track.len(),
        thinned(track, dist2, min_px2, first, track.len() as int),
        thinned(track, dist2, min_px2, second, track.len() as int),
    ensures
        open_run(track, first, i) == open_run(track, second, i),
        closed_runs(track, first, i) == closed_runs(track, second, i),
    decreases i,
{
    if i > 0 {
        lemma_one_way_to_thin(track, dist2, min_px2, first, second, i - 1);
        if !crosses(track, i) {
            let last = open_run(track, first, i - 1).last();
            assert(measured(dist2, track[i].here, last, min_px2, first[i]));
            assert(measured(dist2, track[i].here, last, min_px2, second[i]));
        }
    }
}

/// With a distance that is a function of the two points, a call adds to each
/// tile exactly what the same call gives on an empty map.
pub proof fn a_call_adds_what_a_fresh_map_gets<D: Fn(Pixel, Pixel) -> u32>(
    track: Seq<TrackPoint>,
    dist2: D,
    min_px2: u32,
    before: TileLines,
    after: TileLines,
    fresh: TileLines,
)
    requires
        is_function(dist2),
        split(track, dist2, min_px2, before, after),
        split(track, dist2, min_px2, TileLines::empty(), fresh),
    ensures
        after == joined(before, fresh),
        forall|key: (u32, u32)| #[trigger]
            lines_at(after, key) == lines_at(before, key) + lines_at(fresh, key),
        forall|key: (u32, u32)| #[trigger]
            after.contains_key(key) == (before.contains_key(key) || fresh.contains_key(key)),
{
    let kept = choose|kept: Seq<bool>|
        {
            &&& #[trigger] kept.len() == track.len()
            &&& thinned(track, dist2, min_px2, kept, track.len() as int)
            &&& after == with_runs(before, runs(track, kept))
        };
    let again = choose|kept: Seq<bool>|
        {
            &&& #[trigger] kept.len() == track.len()
            &&& thinned(track, dist2, min_px2, kept, track.len() as int)
            &&& fresh == with_runs(TileLines::empty(), runs(track, kept))
        };
    if track.len() >= 2 {
        lemma_one_way_to_thin(track, dist2, min_px2, kept, again, track.len() - 1);
    }
    assert(runs(track, kept) == runs(track, again));
    filing_joins_what_an_empty_map_gets(before, runs(track, kept));
    assert forall|key: (u32, u32)| #[trigger] lines_at(after, key) == lines_at(before, key)
        + lines_at(fresh, key) by {
        assert(Seq::<Seq<Pixel>>::empty() + Seq::empty() =~= Seq::empty());
        assert(after.contains_key(key) == joined(before, fresh).contains_key(key));
    }
}

} // verus!
