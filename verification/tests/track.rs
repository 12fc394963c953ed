//! Splitting tracks into per-tile polylines.
use gpx_tile_generator::track::Pixel;
use gpx_tile_generator::{
    bucketize_track, empty_buckets, place_track, FxHashMap, TileBuckets, TrackPoint, TILE_SIZE,
};

/// Places a track of base coords at a zoom level with `n` tiles per axis.
fn place(track: &[(f64, f64)], n: f64) -> Vec<TrackPoint> {
    let tile = |i: usize| {
        let p = track[i];
        ((p.0 * n).floor().to_bits(), (p.1 * n).floor().to_bits())
    };
    let pixel = |i: usize, t: (u64, u64)| {
        let p = track[i];
        (
            (((p.0 * n - f64::from_bits(t.0)) * TILE_SIZE as f64) as f32).to_bits(),
            (((p.1 * n - f64::from_bits(t.1)) * TILE_SIZE as f64) as f32).to_bits(),
        )
    };
    place_track(track.len(), tile, pixel)
}

fn dist2(p: Pixel, q: Pixel) -> u32 {
    let dx = f32::from_bits(p.0) - f32::from_bits(q.0);
    let dy = f32::from_bits(p.1) - f32::from_bits(q.1);
    (dx * dx + dy * dy).to_bits()
}

fn bucketize(track: &[(f64, f64)], n: f64, min_px2: f32, buckets: &mut TileBuckets) {
    bucketize_track(&place(track, n), dist2, min_px2.to_bits(), buckets);
}

fn px(x: f32, y: f32) -> Pixel {
    (x.to_bits(), y.to_bits())
}

#[test]
fn bucketize_single_tile_run() {
    // A short track entirely inside tile (0,0) at zoom 0 (n = 1).
    let track = vec![(0.10, 0.10), (0.11, 0.11), (0.12, 0.12)];
    let mut buckets = FxHashMap::default();
    bucketize(&track, 1.0, 1.0, &mut buckets);
    assert_eq!(buckets.len(), 1);
    let polys = &buckets[&(0, 0)];
    assert_eq!(polys.len(), 1);
    assert!(polys[0].len() >= 2);
}

#[test]
fn bucketize_crossing_draws_in_both_tiles() {
    // Crosses the x=0.5 seam at zoom 1 (n = 2), so tiles (0,0) and (1,0).
    let track = vec![(0.45, 0.25), (0.55, 0.25)];
    let mut buckets = FxHashMap::default();
    bucketize(&track, 2.0, 0.0, &mut buckets);
    assert!(buckets.contains_key(&(0, 0)));
    assert!(buckets.contains_key(&(1, 0)));
}

#[test]
fn bucketize_ignores_degenerate_tracks() {
    let mut buckets = FxHashMap::default();
    bucketize(&[], 1.0, 0.0, &mut buckets);
    bucketize(&[(0.5, 0.5)], 1.0, 0.0, &mut buckets);
    assert!(buckets.is_empty());
}

#[test]
fn crossing_endpoints_are_in_the_coords_of_each_tile() {
    let track = vec![(0.25, 0.25), (0.75, 0.25)];
    let mut buckets = FxHashMap::default();
    bucketize(&track, 2.0, 0.0, &mut buckets);
    assert_eq!(buckets[&(0, 0)], vec![vec![px(256.0, 256.0), px(768.0, 256.0)]]);
    assert_eq!(buckets[&(1, 0)], vec![vec![px(-256.0, 256.0), px(256.0, 256.0)]]);
}

#[test]
fn close_points_are_thinned_against_the_last_kept_one() {
    // Steps of 1 px at n = 1; the threshold is 2 px.
    let track: Vec<(f64, f64)> = (0..5).map(|i| (i as f64 / 512.0, 0.0)).collect();
    let mut buckets = FxHashMap::default();
    bucketize(&track, 1.0, 4.0, &mut buckets);
    assert_eq!(buckets[&(0, 0)], vec![vec![px(0.0, 0.0), px(2.0, 0.0), px(4.0, 0.0)]]);
}

#[test]
fn a_zero_threshold_keeps_every_point() {
    let track = vec![(0.5, 0.5), (0.5, 0.5), (0.5, 0.5)];
    let mut buckets = FxHashMap::default();
    bucketize(&track, 1.0, 0.0, &mut buckets);
    assert_eq!(buckets[&(0, 0)][0].len(), 3);
}

#[test]
fn a_track_thinned_to_one_point_is_not_filed() {
    let track = vec![(0.5, 0.5), (0.5, 0.5)];
    let mut buckets = FxHashMap::default();
    bucketize(&track, 1.0, 1.0, &mut buckets);
    assert!(buckets.is_empty());
}

#[test]
fn negative_tiles_are_dropped() {
    // Starts above the map, comes in, and leaves to the left.
    let track = vec![(0.5, -0.5), (0.5, 0.5), (-0.5, 0.5)];
    let mut buckets = FxHashMap::default();
    bucketize(&track, 1.0, 0.0, &mut buckets);
    assert_eq!(buckets.len(), 1);
    assert_eq!(
        buckets[&(0, 0)],
        vec![vec![px(256.0, -256.0), px(256.0, 256.0), px(-256.0, 256.0)]]
    );
}

#[test]
fn points_that_are_no_number_are_dropped() {
    let track = vec![(f64::NAN, 0.5), (f64::NAN, 0.5), (0.5, f64::NAN)];
    let mut buckets = FxHashMap::default();
    bucketize(&track, 1.0, 0.0, &mut buckets);
    assert!(buckets.is_empty());
}

#[test]
fn tracks_accumulate() {
    let track = vec![(0.25, 0.25), (0.75, 0.25)];
    let back = vec![(0.75, 0.25), (0.25, 0.25)];
    let mut buckets = FxHashMap::default();
    bucketize(&track, 2.0, 0.0, &mut buckets);
    bucketize(&back, 2.0, 0.0, &mut buckets);
    assert_eq!(buckets.len(), 2);
    assert_eq!(
        buckets[&(0, 0)],
        vec![
            vec![px(256.0, 256.0), px(768.0, 256.0)],
            vec![px(768.0, 256.0), px(256.0, 256.0)],
        ]
    );
}

#[test]
fn far_tiles_have_their_index() {
    let n = (1u32 << 20) as f64;
    let base = (777_777.25 / n, 123_456.5 / n);
    let mut buckets = FxHashMap::default();
    bucketize(&[base, base], n, 0.0, &mut buckets);
    assert_eq!(buckets.keys().copied().collect::<Vec<_>>(), vec![(777_777, 123_456)]);
}

#[test]
fn a_track_that_stays_in_its_tile_is_one_run() {
    let track = vec![(0.25, 0.25), (0.5, 0.25), (0.5, 0.5), (0.25, 0.5)];
    let mut buckets = FxHashMap::default();
    bucketize(&track, 1.0, 1.0, &mut buckets);
    assert_eq!(buckets.len(), 1);
    assert_eq!(
        buckets[&(0, 0)],
        vec![vec![
            px(128.0, 128.0),
            px(256.0, 128.0),
            px(256.0, 256.0),
            px(128.0, 256.0),
        ]]
    );
}

#[test]
fn a_call_adds_what_an_empty_map_gets() {
    let first = vec![(0.25, 0.25), (0.75, 0.25), (0.75, 0.75)];
    let second = vec![(0.75, 0.25), (0.25, 0.25), (0.25, 0.75)];
    let mut both = empty_buckets();
    assert!(both.is_empty());
    bucketize(&first, 2.0, 0.0, &mut both);
    let before = both.clone();
    bucketize(&second, 2.0, 0.0, &mut both);
    let mut fresh = empty_buckets();
    bucketize(&second, 2.0, 0.0, &mut fresh);
    assert_eq!(both.len(), 4);
    for (key, lines) in &both {
        let mut expected = before.get(key).cloned().unwrap_or_default();
        expected.extend(fresh.get(key).cloned().unwrap_or_default());
        assert_eq!(*lines, expected);
    }
}

#[test]
fn points_are_placed_in_both_tiles_of_a_crossing() {
    let placed = place(&[(0.25, 0.25), (0.75, 0.25), (0.75, 0.375)], 2.0);
    assert_eq!(placed.len(), 3);
    assert_eq!(placed[0].tile, (0.0f64.to_bits(), 0.0f64.to_bits()));
    assert_eq!(placed[1].tile, (1.0f64.to_bits(), 0.0f64.to_bits()));
    assert_eq!(placed[0].here, px(256.0, 256.0));
    assert_eq!(placed[1].here, px(256.0, 256.0));
    assert_eq!(placed[1].in_previous, px(768.0, 256.0));
    assert_eq!(placed[1].previous_here, px(-256.0, 256.0));
    assert_eq!(placed[2].in_previous, px(256.0, 384.0));
    assert_eq!(placed[2].previous_here, px(256.0, 256.0));
    assert!(place(&[], 2.0).is_empty());
}
