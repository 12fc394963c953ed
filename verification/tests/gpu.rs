//! Which path a rasterizer takes, and how batches are cut.
use gpx_tile_generator::gpu::{
    cell_origin, corners, cut_cell, draws_quad, tessellate, used_height, vert_bytes, Primitive, Sign,
    MAX_TEX_DIM, VERT_BYTE_BUDGET,
};
use gpx_tile_generator::{Polyline, Step, TileJob, TileRasterizer, TileStyle, WgpuRenderer};

const TILE_BYTES: usize = 512 * 512;

/// One polyline with so many points.
fn points(n: usize) -> Vec<Polyline> {
    vec![(0..n as u32).map(|i| (i, i)).collect()]
}

fn jobs(geometry: &[Vec<Polyline>]) -> Vec<TileJob<'_>> {
    geometry
        .iter()
        .enumerate()
        .map(|(i, polylines)| TileJob {
            x: i as u32,
            y: 7,
            polylines,
        })
        .collect()
}

fn gpu(max_buffer_size: u64) -> TileRasterizer {
    TileRasterizer::new(Ok(WgpuRenderer::new("adapter".to_string(), max_buffer_size)))
}

/// The steps of a batch, with blank pixels for every answer.
fn steps(rasterizer: &TileRasterizer, jobs: &[TileJob]) -> Vec<Step> {
    let rgba = vec![0u8; 4 * TILE_BYTES];
    let mut batch = rasterizer.render_batch(jobs, 0, true, 255);
    let mut seen = Vec::new();
    loop {
        let step = batch.next();
        seen.push(step);
        match step {
            Step::Stroke(_) => batch.stroked(&rgba),
            Step::Pass { count, .. } => {
                batch.passed(&vec![0u8; (MAX_TEX_DIM * used_height(count)) as usize])
            }
            Step::Done => {
                assert_eq!(batch.finish().len(), jobs.len());
                return seen;
            }
        }
    }
}

#[test]
fn rasterizer_reports_its_path() {
    let on_gpu = gpu(1 << 30);
    assert!(on_gpu.is_gpu());
    assert_eq!(on_gpu.gpu_info(), Some("adapter"));
    assert_eq!(on_gpu.gpu_error(), None);

    let broken = TileRasterizer::new(Err("no wgpu adapter: none".to_string()));
    assert!(!broken.is_gpu());
    assert_eq!(broken.gpu_info(), None);
    assert_eq!(broken.gpu_error(), Some("no wgpu adapter: none"));

    assert_eq!(
        TileRasterizer::without_gpu().gpu_error(),
        Some("built without GPU support")
    );
}

#[test]
fn the_vertex_budget_is_clamped_to_the_device() {
    assert_eq!(WgpuRenderer::new(String::new(), 1000).max_vert_bytes(), 1000);
    assert_eq!(
        WgpuRenderer::new(String::new(), u64::MAX).max_vert_bytes(),
        VERT_BYTE_BUDGET
    );
    assert_eq!(VERT_BYTE_BUDGET, 128 << 20);
}

#[test]
fn vertex_bytes_are_twelve_vertices_per_point() {
    let geometry = vec![points(3), points(0), points(5)];
    assert_eq!(vert_bytes(&jobs(&geometry)), 8 * 12 * 32);
    assert_eq!(vert_bytes(&[]), 0);
}

#[test]
fn without_a_gpu_every_tile_is_stroked() {
    let geometry = vec![points(2); 4];
    assert_eq!(
        steps(&TileRasterizer::without_gpu(), &jobs(&geometry)),
        vec![
            Step::Stroke(0),
            Step::Stroke(1),
            Step::Stroke(2),
            Step::Stroke(3),
            Step::Done
        ]
    );
}

#[test]
fn tiny_chunks_are_stroked() {
    let two = vec![points(2); 2];
    assert_eq!(
        steps(&gpu(1 << 30), &jobs(&two)),
        vec![Step::Stroke(0), Step::Stroke(1), Step::Done]
    );
    let three = vec![points(2); 3];
    assert_eq!(
        steps(&gpu(1 << 30), &jobs(&three)),
        vec![Step::Pass { first: 0, count: 3 }, Step::Done]
    );
}

#[test]
fn passes_are_cut_at_the_cells_of_the_texture() {
    let geometry = vec![points(0); 259];
    assert_eq!(
        steps(&gpu(1 << 30), &jobs(&geometry)),
        vec![
            Step::Pass { first: 0, count: 256 },
            Step::Pass { first: 256, count: 3 },
            Step::Done
        ]
    );
}

#[test]
fn passes_are_cut_at_the_vertex_budget() {
    // Each job needs 10 * 384 bytes; the device takes four of them at once.
    let geometry = vec![points(10); 9];
    assert_eq!(
        steps(&gpu(4 * 3840), &jobs(&geometry)),
        vec![
            Step::Pass { first: 0, count: 4 },
            Step::Pass { first: 4, count: 4 },
            Step::Stroke(8),
            Step::Done
        ]
    );
}

#[test]
fn an_oversized_job_is_stroked() {
    let geometry = vec![points(100), points(1), points(1), points(1)];
    assert_eq!(
        steps(&gpu(3840), &jobs(&geometry)),
        vec![Step::Stroke(0), Step::Pass { first: 1, count: 3 }, Step::Done]
    );
}

#[test]
fn next_chunk_is_the_longest_prefix_that_fits() {
    let geometry = vec![points(10); 5];
    let jobs = jobs(&geometry);
    let renderer = WgpuRenderer::new(String::new(), 3 * 3840);
    assert_eq!(renderer.next_chunk(&jobs).len(), 3);
    assert_eq!(renderer.next_chunk(&jobs[3..]).len(), 2);
    assert_eq!(WgpuRenderer::new(String::new(), 0).next_chunk(&jobs).len(), 1);
}

#[test]
fn a_pass_cuts_each_tile_out_of_its_cell() {
    let geometry = vec![points(2); 18];
    let jobs = jobs(&geometry);
    let mut batch = gpu(1 << 30).render_batch(&jobs, 0, true, 255);
    assert_eq!(batch.next(), Step::Pass { first: 0, count: 18 });
    assert_eq!(used_height(18), 1024);
    // The byte of a cell is its number, but for one marked pixel.
    let mut data = vec![0u8; 8192 * 1024];
    for (at, byte) in data.iter_mut().enumerate() {
        *byte = ((at / 8192 / 512) * 16 + (at % 8192) / 512) as u8;
    }
    let (x, y) = cell_origin(17);
    assert_eq!((x, y), (512, 512));
    data[(512 + 3) * 8192 + 512 + 5] = 200;
    batch.passed(&data);
    assert_eq!(batch.next(), Step::Done);
    let tiles = batch.finish();
    assert_eq!(tiles.len(), 18);
    for (i, tile) in tiles.iter().enumerate() {
        assert_eq!((tile.x, tile.y), (i as u32, 7));
        assert_eq!(tile.coverage.len(), TILE_BYTES);
        assert!(tile
            .coverage
            .iter()
            .enumerate()
            .all(|(k, &c)| c == if i == 17 && k == 3 * 512 + 5 { 200 } else { i as u8 }));
    }
}

#[test]
fn a_stroked_tile_keeps_the_alpha_channel() {
    let geometry = vec![points(2)];
    let jobs = jobs(&geometry);
    let mut batch = TileRasterizer::without_gpu().render_batch(&jobs, 0, true, 255);
    let rgba: Vec<u8> = (0..4 * TILE_BYTES).map(|i| (i % 253) as u8).collect();
    batch.stroked(&rgba);
    let tiles = batch.finish();
    assert_eq!(tiles[0].coverage[0], rgba[3]);
    assert_eq!(tiles[0].coverage[1000], rgba[4003]);
    assert_eq!(tiles[0].coverage[TILE_BYTES - 1], rgba[4 * TILE_BYTES - 1]);
}

#[test]
fn cells_of_the_last_row() {
    assert_eq!(cell_origin(0), (0, 0));
    assert_eq!(cell_origin(15), (7680, 0));
    assert_eq!(cell_origin(255), (7680, 7680));
    assert_eq!(used_height(0), 0);
    assert_eq!(used_height(1), 512);
    assert_eq!(used_height(16), 512);
    assert_eq!(used_height(17), 1024);
    assert_eq!(used_height(256), 8192);
    let mut data = vec![0u8; 8192 * 512];
    data[8191] = 9;
    assert_eq!(cut_cell(&data, 15)[511], 9);
}

#[test]
fn shapes_are_discs_then_quads() {
    let (a, b, c) = ((1, 2), (3, 4), (5, 6));
    let one = 1.0f32.to_bits();
    let shapes = tessellate(&[vec![a, b], vec![], vec![c]], &[vec![one], vec![], vec![]]);
    assert_eq!(shapes.len(), 4);
    assert!(matches!(shapes[0], Primitive::Disc(p) if p == a));
    assert!(matches!(shapes[1], Primitive::Disc(p) if p == b));
    assert!(matches!(shapes[2], Primitive::Quad(p, q) if p == a && q == b));
    assert!(matches!(shapes[3], Primitive::Disc(p) if p == c));
}

#[test]
fn shapes_stay_within_the_vertex_bound() {
    let geometry = points(1000);
    let lengths = vec![vec![1.0f32.to_bits(); 999]];
    let shapes = tessellate(&geometry, &lengths);
    assert_eq!(shapes.len(), 1999);
    let job = TileJob {
        x: 0,
        y: 0,
        polylines: &geometry,
    };
    assert!((shapes.len() * 6 * 32) as u64 <= vert_bytes(&[job]));
}

#[test]
fn styles_compare_widths_as_numbers() {
    let style = |width: f32| TileStyle {
        color_rgba: (1, 2, 3, 4),
        stroke_width: width.to_bits(),
        anti_alias: true,
    };
    assert!(style(0.0) == style(-0.0));
    assert!(style(1.0) != style(2.0));
    assert!(style(f32::NAN) != style(f32::NAN));
}

#[test]
fn short_segments_have_no_quad() {
    assert!(!draws_quad(0.0f32.to_bits()));
    assert!(!draws_quad((-1.0f32).to_bits()));
    assert!(!draws_quad(9.99e-7f32.to_bits()));
    assert!(draws_quad(1e-6f32.to_bits()));
    assert!(draws_quad(f32::INFINITY.to_bits()));
    assert!(draws_quad(f32::NAN.to_bits()));
    // A point given twice, then a real segment.
    let (a, b) = ((1, 2), (3, 4));
    let shapes = tessellate(&[vec![a, a, b]], &[vec![0, 1.0f32.to_bits()]]);
    assert_eq!(shapes.len(), 4);
    assert!(matches!(shapes[2], Primitive::Disc(p) if p == b));
    assert!(matches!(shapes[3], Primitive::Quad(p, q) if p == a && q == b));
}

#[test]
fn requests_tell_the_adapter_or_what_failed() {
    let adapter = || {
        Ok((
            "Apple M1 Pro".to_string(),
            "IntegratedGpu".to_string(),
            "Metal".to_string(),
        ))
    };
    let renderer = WgpuRenderer::from_requests(adapter(), Ok(1000)).ok().unwrap();
    assert_eq!(renderer.adapter_info(), "Apple M1 Pro (IntegratedGpu, Metal)");
    assert_eq!(renderer.max_vert_bytes(), 1000);
    let no_device = WgpuRenderer::from_requests(adapter(), Err("lost".to_string()));
    assert_eq!(no_device.err().unwrap(), "request_device: lost");
    let no_adapter = WgpuRenderer::from_requests(Err("none".to_string()), Err("x".to_string()));
    assert_eq!(no_adapter.err().unwrap(), "no wgpu adapter: none");
    let no_adapter = WgpuRenderer::from_requests(Err("none".to_string()), Ok(1));
    assert_eq!(no_adapter.err().unwrap(), "no wgpu adapter: none");
}

#[test]
fn drawing_in_one_cell_leaves_the_others() {
    let mut data = vec![0u8; 8192 * 512];
    for row in 0..512 {
        data[row * 8192 + 512..row * 8192 + 1024].fill(7);
    }
    assert!(cut_cell(&data, 0).iter().all(|&c| c == 0));
    assert!(cut_cell(&data, 1).iter().all(|&c| c == 7));
    assert!(cut_cell(&data, 2).iter().all(|&c| c == 0));
}

#[test]
fn a_shape_is_two_triangles() {
    let (a, b) = ((1, 2), (3, 4));
    let disc = corners(Primitive::Disc(a));
    let (minus, zero, plus) = (Sign::Minus, Sign::Zero, Sign::Plus);
    assert!(disc.iter().all(|c| c.disc && c.at == a));
    assert_eq!(
        disc.map(|c| c.signs),
        [
            (minus, minus),
            (plus, minus),
            (plus, plus),
            (minus, minus),
            (plus, plus),
            (minus, plus),
        ]
    );
    let quad = corners(Primitive::Quad(a, b));
    assert!(quad.iter().all(|c| !c.disc && c.signs.1 == zero));
    assert_eq!(quad.map(|c| c.at), [a, a, b, a, b, b]);
    assert_eq!(quad.map(|c| c.signs.0), [plus, minus, plus, minus, minus, plus]);
}
