//! What a filed run is: a stretch of the track in one tile.
use crate::ieee::at_least32;
use crate::ieee_laws::{double_precision_compares_numbers, truncating_gives_the_integer_part, value64};
use crate::track::{
    closed_runs, crosses, measured, open_run, runs, split, thinned, with_runs, Pixel, Run,
    TileLines, TrackPoint,
};
use vstd::arithmetic::power2::pow2;
use vstd::prelude::*;

verus! {

/// A stretch of a track: its first point, its last one, and those of its points
/// that are drawn.
pub type Stretch = (int, int, Seq<int>);

/// Whether points `first` to `last` lie in one tile, which the track entered at
/// `first`.
pub open spec fn stays(track: Seq<TrackPoint>, first: int, last: int) -> bool {
    &&& 0 <= first <= last < track.len()
    &&& first == 0 || crosses(track, first)
    &&& forall|j: int| first < j <= last ==> !#[trigger] crosses(track, j)
}

/// Whether the drawn points of a stretch are its first point and, behind it,
/// its kept points: all of them, each once and in track order.
pub open spec fn draws_the_kept(kept: Seq<bool>, stretch: Stretch) -> bool {
    let (first, last, drawn) = stretch;
    &&& drawn.len() > 0
    &&& drawn[0] == first
    &&& forall|a: int, b: int| 0 <= a < b < drawn.len() ==> drawn[a] < drawn[b]
    &&& forall|a: int| 0 < a < drawn.len() ==> kept[#[trigger] drawn[a]]
    &&& forall|a: int| 0 <= a < drawn.len() ==> first <= #[trigger] drawn[a] <= last
    &&& forall|m: int| first < m <= last && #[trigger] kept[m] ==> drawn.contains(m)
}

/// The polyline of a stretch up to its last point: the drawn points in the
/// coords of their tile and, where the track came from another tile, the point
/// before them ahead.
pub open spec fn polyline_to(track: Seq<TrackPoint>, stretch: Stretch) -> Seq<Pixel> {
    let (first, last, drawn) = stretch;
    let lead: Seq<Pixel> = if first == 0 {
        Seq::empty()
    } else {
        seq![track[first].previous_here]
    };
    lead + Seq::new(drawn.len(), |a: int| track[drawn[a]].here)
}

/// Points in the same tile have the same key, and are on the map together.
proof fn lemma_same_tile(first: TrackPoint, second: TrackPoint)
    requires
        first.same_tile(second),
    ensures
        first.key() == second.key(),
        first.on_map() == second.on_map(),
{
}

/// The run that is open at a point is a stretch up to that point.
proof fn lemma_open_run_is_a_stretch(track: Seq<TrackPoint>, kept: Seq<bool>, i: int) -> (s: Stretch)
    requires
        0 <= i < track.len(),
    ensures
        s.1 == i,
        stays(track, s.0, i),
        draws_the_kept(kept, s),
        open_run(track, kept, i) == polyline_to(track, s),
        track[s.0].key() == track[i].key(),
        track[s.0].on_map() == track[i].on_map(),
    decreases i,
{
    if i == 0 || crosses(track, i) {
        let s = (i, i, seq![i]);
        assert(open_run(track, kept, i) =~= polyline_to(track, s));
        s
    } else {
        let before = lemma_open_run_is_a_stretch(track, kept, i - 1);
        lemma_same_tile(track[i], track[i - 1]);
        if kept[i] {
            let drawn = before.2.push(i);
            let s = (before.0, i, drawn);
            assert forall|m: int| before.0 < m <= i && #[trigger] kept[m] implies drawn.contains(
                m,
            ) by {
                if m < i {
                    assert(before.2.contains(m));
                    let a = choose|a: int| 0 <= a < before.2.len() && before.2[a] == m;
                    assert(drawn[a] == m);
                } else {
                    assert(drawn[before.2.len() as int] == m);
                }
            }
            assert(open_run(track, kept, i) =~= polyline_to(track, s));
            s
        } else {
            let s = (before.0, i, before.2);
            assert(polyline_to(track, s) =~= polyline_to(track, before));
            s
        }
    }
}

/// Whether `run` is what a stretch that the track left again is filed as.
pub open spec fn is_closed_by(
    track: Seq<TrackPoint>,
    kept: Seq<bool>,
    run: Run,
    s: Stretch,
) -> bool {
    &&& stays(track, s.0, s.1)
    &&& s.1 + 1 < track.len()
    &&& crosses(track, s.1 + 1)
    &&& draws_the_kept(kept, s)
    &&& track[s.0].on_map()
    &&& run.0 == track[s.0].key()
    &&& run.1 == polyline_to(track, s).push(track[s.1 + 1].in_previous)
}

/// The closed runs are the stretches that the track left, in their order.
proof fn lemma_closed_runs_are_stretches(track: Seq<TrackPoint>, kept: Seq<bool>, i: int) -> (st: Seq<
    Stretch,
>)
    requires
        0 <= i < track.len(),
    ensures
        st.len() == closed_runs(track, kept, i).len(),
        forall|k: int|
            0 <= k < st.len() ==> is_closed_by(
                track,
                kept,
                closed_runs(track, kept, i)[k],
                #[trigger] st[k],
            ),
        forall|k: int| 0 <= k < st.len() ==> (#[trigger] st[k]).1 < i,
        forall|a: int, b: int| 0 <= a < b < st.len() ==> (#[trigger] st[a]).1 < (#[trigger] st[b]).0,
        forall|first: int, last: int|
            #![trigger stays(track, first, last)]
            stays(track, first, last) && last < i && crosses(track, last + 1)
                && track[first].on_map() ==> exists|k: int|
                0 <= k < st.len() && (#[trigger] st[k]).0 == first && st[k].1 == last,
    decreases i,
{
    if i == 0 {
        Seq::empty()
    } else {
        let before = lemma_closed_runs_are_stretches(track, kept, i - 1);
        let open = lemma_open_run_is_a_stretch(track, kept, i - 1);
        let st = if crosses(track, i) && track[i - 1].on_map() {
            before.push(open)
        } else {
            before
        };
        if crosses(track, i) && track[i - 1].on_map() {
            assert forall|a: int, b: int| 0 <= a < b < st.len() implies (#[trigger] st[a]).1 < (
            #[trigger] st[b]).0 by {
                if b == before.len() {
                    // The stretch before was left, so that the open one starts behind.
                    assert(is_closed_by(track, kept, closed_runs(track, kept, i - 1)[a], before[a]));
                    if open.0 <= before[a].1 {
                        assert(crosses(track, before[a].1 + 1));
                        assert(false);
                    }
                }
            }
        }
        assert forall|first: int, last: int|
            #![trigger stays(track, first, last)]
            stays(track, first, last) && last < i && crosses(track, last + 1)
                && track[first].on_map() implies exists|k: int|
            0 <= k < st.len() && (#[trigger] st[k]).0 == first && st[k].1 == last by {
            if last < i - 1 {
                let k = choose|k: int|
                    0 <= k < before.len() && (#[trigger] before[k]).0 == first && before[k].1
                        == last;
                assert(st[k] == before[k]);
            } else {
                assert(first == open.0) by {
                    if first < open.0 {
                        assert(crosses(track, open.0));
                    } else if open.0 < first {
                        assert(crosses(track, first));
                    }
                }
                assert(st[before.len() as int] == open);
            }
        }
        st
    }
}

/// Every filed run is a maximal stretch of the track in one tile on the map,
/// and every such stretch is filed, in track order.
///
/// A run holds the drawn points of its stretch, each once and in track order,
/// and nothing else but the two crossing endpoints: the point before the
/// stretch ahead of them where the track came from another tile, and the point
/// behind it where the track went on to another tile. The only stretch on the
/// map that is not filed is a whole track of which one point alone is drawn.
pub proof fn runs_are_maximal_stretches(track: Seq<TrackPoint>, kept: Seq<bool>) -> (st: Seq<Stretch>)
    requires
        2 <= track.len(),
    ensures
        st.len() == runs(track, kept).len(),
        forall|k: int|
            0 <= k < st.len() ==> {
                let (first, last, drawn) = #[trigger] st[k];
                let run = runs(track, kept)[k];
                let lead: nat = if first == 0 {
                    0
                } else {
                    1
                };
                let tail: nat = if last == track.len() - 1 {
                    0
                } else {
                    1
                };
                // One tile, entered at the first point and left behind the last.
                &&& stays(track, first, last)
                &&& last == track.len() - 1 || crosses(track, last + 1)
                &&& track[first].on_map()
                &&& run.0 == track[first].key()
                // The kept points, each once and in track order.
                &&& draws_the_kept(kept, st[k])
                &&& run.1.len() == lead + drawn.len() + tail
                &&& run.1.len() >= 2
                &&& forall|a: int|
                    0 <= a < drawn.len() ==> #[trigger] run.1[lead + a] == track[drawn[a]].here
                // The crossing endpoints.
                &&& lead == 1 ==> run.1[0] == track[first].previous_here
                &&& tail == 1 ==> run.1[run.1.len() - 1] == track[last + 1].in_previous
            },
        forall|a: int, b: int| 0 <= a < b < st.len() ==> (#[trigger] st[a]).1 < (#[trigger] st[b]).0,
        forall|first: int, last: int|
            #![trigger stays(track, first, last)]
            stays(track, first, last) && (last == track.len() - 1 || crosses(track, last + 1))
                && track[first].on_map() && (first > 0 || last < track.len() - 1 || exists|m: int|
                first < m <= last && #[trigger] kept[m]) ==> exists|k: int|
                0 <= k < st.len() && (#[trigger] st[k]).0 == first && st[k].1 == last,
{
    let end = track.len() - 1;
    let closed = lemma_closed_runs_are_stretches(track, kept, end);
    let open = lemma_open_run_is_a_stretch(track, kept, end);
    let filed = open_run(track, kept, end).len() > 1 && track[end].on_map();
    let st = if filed {
        closed.push(open)
    } else {
        closed
    };
    assert forall|k: int| 0 <= k < closed.len() implies closed[k].1 < open.0 && runs(
        track,
        kept,
    )[k] == closed_runs(track, kept, end)[k] by {
        assert(is_closed_by(track, kept, closed_runs(track, kept, end)[k], closed[k]));
        if open.0 <= closed[k].1 {
            assert(crosses(track, closed[k].1 + 1));
        }
    }
    assert forall|k: int| 0 <= k < st.len() implies {
        let (first, last, drawn) = #[trigger] st[k];
        let run = runs(track, kept)[k];
        let lead: nat = if first == 0 {
            0
        } else {
            1
        };
        let tail: nat = if last == track.len() - 1 {
            0
        } else {
            1
        };
        &&& stays(track, first, last)
        &&& last == track.len() - 1 || crosses(track, last + 1)
        &&& track[first].on_map()
        &&& run.0 == track[first].key()
        &&& draws_the_kept(kept, st[k])
        &&& run.1.len() == lead + drawn.len() + tail
        &&& run.1.len() >= 2
        &&& forall|a: int|
            0 <= a < drawn.len() ==> #[trigger] run.1[lead + a] == track[drawn[a]].here
        &&& lead == 1 ==> run.1[0] == track[first].previous_here
        &&& tail == 1 ==> run.1[run.1.len() - 1] == track[last + 1].in_previous
    } by {
        if k < closed.len() {
            assert(is_closed_by(track, kept, closed_runs(track, kept, end)[k], closed[k]));
        }
    }
    assert forall|first: int, last: int|
        #![trigger stays(track, first, last)]
        stays(track, first, last) && (last == track.len() - 1 || crosses(track, last + 1))
            && track[first].on_map() && (first > 0 || last < track.len() - 1 || exists|m: int|
            first < m <= last && #[trigger] kept[m]) implies exists|k: int|
        0 <= k < st.len() && (#[trigger] st[k]).0 == first && st[k].1 == last by {
        if last < end {
            let k = choose|k: int|
                0 <= k < closed.len() && (#[trigger] closed[k]).0 == first && closed[k].1 == last;
            assert(st[k] == closed[k]);
        } else {
            assert(first == open.0) by {
                if first < open.0 {
                    assert(crosses(track, open.0));
                } else if open.0 < first {
                    assert(crosses(track, first));
                }
            }
            if first == 0 {
                let m = choose|m: int| first < m <= last && #[trigger] kept[m];
                assert(open.2.contains(m));
                assert(open.2[0] != m);
            }
            assert(open_run(track, kept, end).len() > 1);
            assert(st[closed.len() as int] == open);
        }
    }
    st
}

/// Consecutive points of a run are consecutive drawn points of the track: none
/// that was kept lies between them.
pub proof fn nothing_kept_lies_between(kept: Seq<bool>, stretch: Stretch, a: int, m: int)
    requires
        draws_the_kept(kept, stretch),
        0 <= a < stretch.2.len() - 1,
        stretch.2[a] < m < stretch.2[a + 1],
    ensures
        !kept[m],
{
    let drawn = stretch.2;
    if kept[m] {
        assert(stretch.0 <= drawn[a] && drawn[a + 1] <= stretch.1);
        assert(drawn.contains(m));
        let b = choose|b: int| 0 <= b < drawn.len() && drawn[b] == m;
        if b <= a {
            assert(b < a ==> drawn[b] < drawn[a]);
        } else {
            assert(a + 1 < b ==> drawn[a + 1] < drawn[b]);
        }
    }
}

/// A point inside a tile is kept exactly where it is at least the threshold
/// away from the last drawn point before it: the nearest one that was kept or
/// that the stretch starts with.
pub proof fn points_are_measured_from_the_last_drawn_one<D: Fn(Pixel, Pixel) -> u32>(
    track: Seq<TrackPoint>,
    dist2: D,
    min_px2: u32,
    kept: Seq<bool>,
    i: int,
)
    requires
        thinned(track, dist2, min_px2, kept, track.len() as int),
        1 <= i < track.len(),
        !crosses(track, i),
    ensures
        exists|j: int, d: u32|
            {
                &&& 0 <= j < i
                &&& j == 0 || crosses(track, j) || kept[j]
                &&& forall|l: int| j < l < i ==> !#[trigger] kept[l] && !crosses(track, l)
                &&& #[trigger] dist2.ensures((track[i].here, track[j].here), d)
                &&& kept[i] == at_least32(d, min_px2)
            },
{
    let s = lemma_open_run_is_a_stretch(track, kept, i - 1);
    let drawn = s.2;
    let j = drawn.last();
    let last = open_run(track, kept, i - 1).last();
    assert(last == track[j].here);
    assert(measured(dist2, track[i].here, last, min_px2, kept[i]));
    let d = choose|d: u32| #[trigger]
        dist2.ensures((track[i].here, last), d) && kept[i] == at_least32(d, min_px2);
    assert(dist2.ensures((track[i].here, track[j].here), d));
    assert(s.0 <= drawn[drawn.len() - 1] <= s.1);
    assert forall|l: int| j < l < i implies !#[trigger] kept[l] && !crosses(track, l) by {
        if kept[l] {
            assert(drawn.contains(l));
            let b = choose|b: int| 0 <= b < drawn.len() && drawn[b] == l;
            assert(b < drawn.len() - 1 ==> drawn[b] < drawn[drawn.len() - 1]);
        }
    }
    if j != s.0 {
        assert(drawn.len() > 1);
        assert(kept[drawn[drawn.len() - 1]]);
    }
}

/// Splitting a track files its runs, for some choice of kept points that
/// measuring allows, and nothing else.
pub proof fn splitting_files_the_runs<D: Fn(Pixel, Pixel) -> u32>(
    track: Seq<TrackPoint>,
    dist2: D,
    min_px2: u32,
    before: TileLines,
    after: TileLines,
) -> (kept: Seq<bool>)
    requires
        split(track, dist2, min_px2, before, after),
    ensures
        kept.len() == track.len(),
        thinned(track, dist2, min_px2, kept, track.len() as int),
        after == with_runs(before, runs(track, kept)),
{
    choose|kept: Seq<bool>|
        {
            &&& #[trigger] kept.len() == track.len()
            &&& thinned(track, dist2, min_px2, kept, track.len() as int)
            &&& after == with_runs(before, runs(track, kept))
        }
}

/// Filing one more run puts its polyline behind those of its tile, and leaves
/// the other tiles as they are.
pub proof fn filing_one_more_run(map: TileLines, filed: Seq<Run>, run: Run)
    ensures
        with_runs(map, Seq::empty()) == map,
        with_runs(map, filed.push(run)).contains_key(run.0),
        with_runs(map, filed.push(run))[run.0] == (if with_runs(map, filed).contains_key(run.0) {
            with_runs(map, filed)[run.0]
        } else {
            Seq::empty()
        }).push(run.1),
        forall|key: (u32, u32)|
            key != run.0 ==> {
                &&& #[trigger] with_runs(map, filed.push(run)).contains_key(key) == with_runs(
                    map,
                    filed,
                ).contains_key(key)
                &&& with_runs(map, filed).contains_key(key) ==> with_runs(
                    map,
                    filed.push(run),
                )[key] == with_runs(map, filed)[key]
            },
{
    assert(filed.push(run).drop_last() =~= filed);
    assert(filed.push(run).last() == run);
}

/// Points lie in one tile where its column and its row are the same numbers. A
/// tile is on the map where neither is negative, and its key is then the
/// integer parts of both, as far as 32 bits go.
pub proof fn tiles_are_told_by_their_numbers(p: TrackPoint, q: TrackPoint)
    ensures
        ({
            let unit = pow2(1074) as int;
            let limit: u64 = 0x7FF0_0000_0000_0000;
            let numbers = p.tile.0 % 0x8000_0000_0000_0000 <= limit && p.tile.1
                % 0x8000_0000_0000_0000 <= limit;
            let others = q.tile.0 % 0x8000_0000_0000_0000 <= limit && q.tile.1
                % 0x8000_0000_0000_0000 <= limit;
            let (x, y) = (value64(p.tile.0), value64(p.tile.1));
            &&& p.same_tile(q) <==> numbers && others && x == value64(q.tile.0) && y == value64(
                q.tile.1,
            )
            &&& p.on_map() <==> numbers && x >= 0 && y >= 0
            &&& p.on_map() && x < 0x1_0000_0000 * unit ==> p.key().0 * unit <= x < (p.key().0 + 1)
                * unit
            &&& p.on_map() && y < 0x1_0000_0000 * unit ==> p.key().1 * unit <= y < (p.key().1 + 1)
                * unit
            &&& p.on_map() && x >= 0x1_0000_0000 * unit ==> p.key().0 == 0xFFFF_FFFF
            &&& p.on_map() && y >= 0x1_0000_0000 * unit ==> p.key().1 == 0xFFFF_FFFF
        }),
{
    double_precision_compares_numbers(p.tile.0, q.tile.0);
    double_precision_compares_numbers(p.tile.1, q.tile.1);
    truncating_gives_the_integer_part(p.tile.0);
    truncating_gives_the_integer_part(p.tile.1);
}

/// A track enters another tile exactly where a point is not in the tile of the
/// point before it.
pub proof fn crossings_are_changes_of_tile(track: Seq<TrackPoint>, i: int)
    requires
        1 <= i < track.len(),
    ensures
        crosses(track, i) <==> !track[i].same_tile(track[i - 1]),
{
}

} // verus!
