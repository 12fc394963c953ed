//! Turn GPS tracks into Web Mercator raster map tiles.
//!
//! Tracks are split into per-tile polylines, and those are stroked into 512x512
//! PNG tiles ready to serve to a slippy map (Leaflet, `MapLibre`, XYZ layers).
//!
//! # Pipeline
//!
//! ```text
//! placed track  --bucketize_track-->  per-tile polylines
//!                                            |
//!         encode_bin  <--- store ---         |
//!                                            v
//!                         TileRasterizer::render_batch
//!                                            |
//!                                            v
//!                         encode_indexed_coverage -> PNG
//! ```
//!
//! - [`bucketize_track`]: split a track into per-tile polylines (maximal
//!   in-tile runs), the heart of the per-zoom rasterizer.
//! - [`encode_bin`] / [`decode_bin`]: compact half-precision polyline dump.
//! - [`render_tile_indexed_png`]: a single stroked tile as a PNG.
//! - [`TileRasterizer`]: batched GPU rasterizer with a CPU fallback, plus
//!   [`encode_indexed_coverage`] for single-channel PNG output.
//! - [`recolor_indexed_png`]: repaint an encoded tile via its palette alone,
//!   without re-rendering or re-compressing.
//!
//! # Floating point
//!
//! The library does no arithmetic on floating-point numbers. A coordinate or a
//! width is handed over as the unsigned integer that has its IEEE 754 bits; the
//! caller projects, measures and strokes, and hands in what came out.
use vstd::prelude::*;

pub mod batch;
pub mod bin_codec;
pub mod bytes;
pub mod crc;
pub mod crc_laws;
pub mod gpu;
pub mod gpu_laws;
pub mod ieee;
pub mod ieee_laws;
pub mod png_chunks;
pub mod png_laws;
pub mod raster;
pub mod rasterizer;
pub mod repaint;
pub mod stretch_laws;
pub mod stroke;
pub mod track;
pub mod track_laws;

pub use batch::{Batch, Step};
pub use bin_codec::{decode_bin, encode_bin};
pub use gpu::WgpuRenderer;
pub use raster::{
    encode_indexed_coverage, encode_indexed_coverage_rgb, recolor_indexed_png, RenderedTile,
    TileJob,
};
pub use rasterizer::TileRasterizer;
pub use rustc_hash::FxHashMap;
pub use stroke::{render_tile_indexed_png, TileStyle};
pub use track::{
    bucketize_track, empty_buckets, place_track, Polyline, TileBuckets, TrackPoint,
};

verus! {

/// Side length (px) of every rendered tile. Oversampled vs the 256 dp logical
/// map tile so retina screens stay crisp.
///
/// Fixed at compile time: render passes pack tiles into a 8192² meta texture
/// sized around it, and the precision of the `.bin` dump is chosen for this
/// range. Serving these as 256 dp tiles is a matter of the client's `tileSize`.
pub const TILE_SIZE: u32 = 512;

} // verus!
