//! Batches against single tiles, and the whole way from a track to a PNG.
//!
//! Strokes are drawn by tiny-skia here, on the path that the library gives.
use gpx_tile_generator::gpu::{cell_origin, used_height, MAX_TEX_DIM};
use gpx_tile_generator::stroke::{coverage_of, tile_path, PathOp};
use gpx_tile_generator::track::Pixel;
use gpx_tile_generator::{
    bucketize_track, decode_bin, encode_bin, encode_indexed_coverage, place_track,
    recolor_indexed_png, render_tile_indexed_png, Polyline, RenderedTile, Step, TileBuckets,
    TileJob, TileRasterizer, TileStyle, WgpuRenderer, TILE_SIZE,
};
use half::f16;
use tiny_skia::{LineCap, LineJoin, Paint, PathBuilder, Pixmap, Stroke, Transform};

fn bits(lines: &[Vec<(f32, f32)>]) -> Vec<Polyline> {
    lines
        .iter()
        .map(|line| line.iter().map(|&(x, y)| (x.to_bits(), y.to_bits())).collect())
        .collect()
}

fn stroke(polylines: &[Polyline], style: &TileStyle) -> Vec<u8> {
    let mut pixmap = Pixmap::new(TILE_SIZE, TILE_SIZE).unwrap();
    let mut paint = Paint::default();
    let (r, g, b, a) = style.color_rgba;
    paint.set_color_rgba8(r, g, b, a);
    paint.anti_alias = style.anti_alias;
    let mut pb = PathBuilder::new();
    for op in tile_path(polylines) {
        match op {
            PathOp::MoveTo((x, y)) => pb.move_to(f32::from_bits(x), f32::from_bits(y)),
            PathOp::LineTo((x, y)) => pb.line_to(f32::from_bits(x), f32::from_bits(y)),
        }
    }
    if let Some(path) = pb.finish() {
        let stroke = Stroke {
            width: f32::from_bits(style.stroke_width),
            line_cap: LineCap::Round,
            line_join: LineJoin::Round,
            ..Default::default()
        };
        pixmap.stroke_path(&path, &paint, &stroke, Transform::identity(), None);
    }
    pixmap.take()
}

fn render_batch(
    rasterizer: &TileRasterizer,
    jobs: &[TileJob],
    stroke_width: f32,
    anti_alias: bool,
    alpha: u8,
) -> Vec<RenderedTile> {
    let mut batch = rasterizer.render_batch(jobs, stroke_width.to_bits(), anti_alias, alpha);
    let style = batch.style();
    loop {
        match batch.next() {
            Step::Stroke(i) => batch.stroked(&stroke(jobs[i].polylines, &style)),
            // Stands in for a device: draws each tile into its cell.
            Step::Pass { first, count } => {
                let width = MAX_TEX_DIM as usize;
                let mut data = vec![0u8; width * used_height(count) as usize];
                for i in 0..count {
                    let coverage = coverage_of(&stroke(jobs[first + i].polylines, &style));
                    let (cx, cy) = cell_origin(i);
                    for (r, row) in coverage.chunks_exact(TILE_SIZE as usize).enumerate() {
                        let at = (cy as usize + r) * width + cx as usize;
                        data[at..at + row.len()].copy_from_slice(row);
                    }
                }
                batch.passed(&data);
            }
            Step::Done => return batch.finish(),
        }
    }
}

fn both_paths() -> [TileRasterizer; 2] {
    let gpu = WgpuRenderer::new("stand-in (Cpu, Noop)".to_string(), 1 << 28);
    [TileRasterizer::without_gpu(), TileRasterizer::new(Ok(gpu))]
}

/// A handful of distinct polylines, enough tiles to clear the rasterizer's
/// small-batch CPU fallback.
fn jobs_geometry(count: usize) -> Vec<Vec<Polyline>> {
    (0..count)
        .map(|i| {
            let o = (i * 17 % 200) as f32;
            bits(&[
                vec![(10.0 + o, 10.0), (500.0, 300.0 + o), (250.0, 500.0)],
                vec![(0.0, 256.0 + o), (511.0, 256.0 - o)],
                // Crosses the tile edge: exercises the per-cell clip.
                vec![(-40.0, 100.0), (600.0, 120.0)],
            ])
        })
        .collect()
}

fn cpu_coverage(polylines: &[Polyline], width: f32, aa: bool, alpha: u8) -> Vec<u8> {
    let style = TileStyle {
        color_rgba: (0, 0, 0, alpha),
        stroke_width: width.to_bits(),
        anti_alias: aa,
    };
    let rgba = stroke(polylines, &style);
    (0..(TILE_SIZE * TILE_SIZE) as usize)
        .map(|i| rgba[i * 4 + 3])
        .collect()
}

fn project(lat: f64, lon: f64) -> (f64, f64) {
    let lat_rad = lat.to_radians();
    let base_x = (lon + 180.0) / 360.0;
    let base_y = (1.0 - lat_rad.tan().asinh() / std::f64::consts::PI) / 2.0;
    (base_x, base_y)
}

fn bucketize(track: &[(f64, f64)], n: f64, min_px2: f32, buckets: &mut TileBuckets) {
    let tile = |i: usize| {
        let p = track[i];
        ((p.0 * n).floor().to_bits(), (p.1 * n).floor().to_bits())
    };
    let pixel = |i: usize, t: (u64, u64)| {
        let p = track[i];
        (
            (((p.0 * n - f64::from_bits(t.0)) * TILE_SIZE as f64) as f32).to_bits(),
            (((p.1 * n - f64::from_bits(t.1)) * TILE_SIZE as f64) as f32).to_bits(),
        )
    };
    let placed = place_track(track.len(), tile, pixel);
    let dist2 = |p: Pixel, q: Pixel| {
        let dx = f32::from_bits(p.0) - f32::from_bits(q.0);
        let dy = f32::from_bits(p.1) - f32::from_bits(q.1);
        (dx * dx + dy * dy).to_bits()
    };
    bucketize_track(&placed, dist2, min_px2.to_bits(), buckets);
}

#[test]
fn batch_matches_single_tile_rendering() {
    let geom = jobs_geometry(8);
    let jobs: Vec<TileJob> = geom
        .iter()
        .enumerate()
        .map(|(i, polylines)| TileJob {
            x: i as u32,
            y: 0,
            polylines,
        })
        .collect();

    let stroke = 4.0;
    let alpha = 255u8;
    for rasterizer in both_paths() {
        let rendered = render_batch(&rasterizer, &jobs, stroke, true, alpha);

        assert_eq!(rendered.len(), jobs.len());

        for (tile, polylines) in rendered.iter().zip(geom.iter()) {
            let reference = cpu_coverage(polylines, stroke, true, alpha);
            assert_eq!(tile.coverage.len(), reference.len());

            let painted = reference.iter().filter(|&&c| c > 0).count();
            assert!(painted > 1000, "test geometry should cover real area");

            let total_diff: u64 = tile
                .coverage
                .iter()
                .zip(reference.iter())
                .map(|(&a, &b)| a.abs_diff(b) as u64)
                .sum();
            let mean_diff = total_diff as f64 / reference.len() as f64;

            assert!(
                mean_diff < 1.0,
                "GPU/CPU coverage diverged (mean {mean_diff:.3}/255, gpu={})",
                rasterizer.is_gpu()
            );
        }
    }
}

#[test]
fn batch_preserves_input_order_and_keys() {
    let geom = jobs_geometry(8);
    let jobs: Vec<TileJob> = geom
        .iter()
        .enumerate()
        .map(|(i, polylines)| TileJob {
            x: 100 + i as u32,
            y: 200 + i as u32,
            polylines,
        })
        .collect();

    for rasterizer in both_paths() {
        let rendered = render_batch(&rasterizer, &jobs, 3.0, true, 255);
        let keys: Vec<(u32, u32)> = rendered.iter().map(|t| (t.x, t.y)).collect();
        let expected: Vec<(u32, u32)> = jobs.iter().map(|j| (j.x, j.y)).collect();
        assert_eq!(keys, expected);
    }
}

#[test]
fn strokes_do_not_bleed_between_tiles() {
    // One tile whose only geometry lies entirely to the left of it. Nothing may
    // land inside.
    let far_left = bits(&[vec![(-800.0, 100.0), (-600.0, 400.0)]]);
    let jobs: Vec<TileJob> = (0..8)
        .map(|i| TileJob {
            x: i,
            y: 0,
            polylines: &far_left,
        })
        .collect();

    for rasterizer in both_paths() {
        for tile in render_batch(&rasterizer, &jobs, 6.0, true, 255) {
            assert!(tile.coverage.iter().all(|&c| c == 0));
        }
    }
}

#[test]
fn full_pipeline_track_to_recolored_png() {
    let track: Vec<(f64, f64)> = (0..400)
        .map(|i| {
            let t = i as f64 / 400.0;
            project(t * 0.2, t * 0.3)
        })
        .collect();

    let zoom = 12u32;
    let mut buckets = TileBuckets::default();
    bucketize(&track, (1u32 << zoom) as f64, 0.25, &mut buckets);
    assert!(buckets.len() > 1, "a 0.2° track must span several tiles");

    let jobs: Vec<TileJob> = buckets
        .iter()
        .map(|(&(x, y), polylines)| TileJob { x, y, polylines })
        .collect();

    let rendered = render_batch(&TileRasterizer::without_gpu(), &jobs, 3.0, true, 255);
    assert_eq!(rendered.len(), jobs.len());

    let with_ink = rendered
        .iter()
        .filter(|t| t.coverage.iter().any(|&c| c > 0))
        .count();
    assert_eq!(with_ink, rendered.len(), "every bucketed tile has geometry");

    let png = encode_indexed_coverage(&rendered[0].coverage);
    let red = recolor_indexed_png(&png, (0xFF, 0x00, 0x00)).unwrap();
    assert_eq!(red.len(), png.len());
    assert_ne!(red, png);
}

#[test]
fn bin_roundtrip_survives_a_real_bucketed_track() {
    let track: Vec<(f64, f64)> = (0..200)
        .map(|i| {
            let t = i as f64 / 200.0;
            project(t * 0.05, t * 0.05)
        })
        .collect();

    let mut buckets = TileBuckets::default();
    bucketize(&track, (1u32 << 14) as f64, 0.0, &mut buckets);

    for polylines in buckets.values() {
        let halves: Vec<Vec<(u16, u16)>> = polylines
            .iter()
            .map(|line| {
                line.iter()
                    .map(|&(x, y)| {
                        (
                            f16::from_f32(f32::from_bits(x)).to_bits(),
                            f16::from_f32(f32::from_bits(y)).to_bits(),
                        )
                    })
                    .collect()
            })
            .collect();
        let decoded = decode_bin(&encode_bin(&halves)).unwrap();
        assert_eq!(decoded.len(), polylines.len());
        for (orig, back) in polylines.iter().zip(decoded.iter()) {
            assert_eq!(orig.len(), back.len());
            for (&(ax, ay), &(bx, by)) in orig.iter().zip(back.iter()) {
                let (ax, ay) = (f32::from_bits(ax), f32::from_bits(ay));
                let (bx, by) = (f16::from_bits(bx).to_f32(), f16::from_bits(by).to_f32());
                assert!((ax - bx).abs() <= 0.25);
                assert!((ay - by).abs() <= 0.25);
            }
        }
    }
}

#[test]
fn empty_tile_renders_blank() {
    let r = TileRasterizer::without_gpu();
    let empty: Vec<Polyline> = Vec::new();
    let jobs = vec![TileJob {
        x: 3,
        y: 4,
        polylines: &empty,
    }];
    let out = render_batch(&r, &jobs, 3.0, true, 255);
    assert_eq!(out.len(), 1);
    assert_eq!((out[0].x, out[0].y), (3, 4));
    assert!(out[0].coverage.iter().all(|&c| c == 0));
}

#[test]
fn render_tile_indexed_png_is_none_when_empty() {
    let style = TileStyle {
        color_rgba: (0, 0, 0, 255),
        stroke_width: 2.0f32.to_bits(),
        anti_alias: true,
    };
    assert!(render_tile_indexed_png(&[], &style, &stroke(&[], &style)).is_none());
    assert!(render_tile_indexed_png(&[], &style, &[]).is_none());
}

#[test]
fn a_single_tile_png_matches_a_batched_one() {
    let geom = jobs_geometry(1);
    let style = TileStyle {
        color_rgba: (10, 20, 30, 200),
        stroke_width: 3.0f32.to_bits(),
        anti_alias: true,
    };
    let single = render_tile_indexed_png(&geom[0], &style, &stroke(&geom[0], &style)).unwrap();
    let jobs = vec![TileJob {
        x: 0,
        y: 0,
        polylines: &geom[0],
    }];
    let tile = &render_batch(&TileRasterizer::without_gpu(), &jobs, 3.0, true, 200)[0];
    let batched = encode_indexed_coverage(&tile.coverage);
    assert_eq!(single, recolor_indexed_png(&batched, (10, 20, 30)).unwrap());
}

#[test]
fn the_style_of_a_batch_is_the_default_color_with_its_opacity() {
    let jobs: Vec<TileJob> = Vec::new();
    let batch = TileRasterizer::without_gpu().render_batch(&jobs, 7, false, 99);
    let style = batch.style();
    assert_eq!(style.color_rgba, (0x00, 0x7A, 0xFF, 99));
    assert_eq!(style.stroke_width, 7);
    assert!(!style.anti_alias);
    assert_eq!(batch.next(), Step::Done);
    assert_eq!(batch.finish().len(), 0);
}

#[test]
fn overlapping_strokes_look_like_one() {
    let line = bits(&[vec![(40.0, 60.0), (300.0, 200.0), (480.0, 100.0)]]);
    let ten: Vec<Polyline> = (0..10).map(|_| line[0].clone()).collect();
    let once = cpu_coverage(&line, 4.0, true, 128);
    let often = cpu_coverage(&ten, 4.0, true, 128);
    assert!(once.iter().any(|&c| c == 128));
    assert_eq!(once, often);
}
