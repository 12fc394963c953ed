//! The batched tile rasterizer.
use crate::batch::{start_batch, Batch, TileValue};
use crate::gpu::WgpuRenderer;
use crate::raster::{TileJob, DEFAULT_RGB};
use crate::stroke::{batch_style, TileStyle};
use vstd::prelude::*;

verus! {

/// Batched tile rasterizer. Prefers the GPU; transparently uses the CPU path
/// when the GPU is unavailable.
///
/// Initializing a device is expensive, rendering is not: build one and reuse it
/// for every batch.
pub struct TileRasterizer {
    gpu: Option<WgpuRenderer>,
    gpu_error: Option<String>,
}

impl TileRasterizer {
    /// There is a reason why the GPU is unavailable exactly where it is not in
    /// use.
    #[verifier::type_invariant]
    spec fn error_iff_no_gpu(self) -> bool {
        self.gpu is Some <==> self.gpu_error is None
    }

    /// The GPU in use.
    pub closed spec fn spec_gpu(self) -> Option<WgpuRenderer> {
        self.gpu
    }

    /// Why the GPU is not in use.
    pub closed spec fn spec_gpu_error(self) -> Option<Seq<char>> {
        match self.gpu_error {
            Some(e) => Some(e@),
            None => None,
        }
    }

    /// Builds a rasterizer on the outcome of initializing the GPU.
    ///
    /// Never fails: a missing or broken GPU just means every batch routes
    /// through the CPU path. [`TileRasterizer::is_gpu`] reports which path you
    /// got and [`TileRasterizer::gpu_error`] why, for callers that want to log
    /// it.
    pub fn new(gpu: Result<WgpuRenderer, String>) -> (r: Self)
        ensures
            match gpu {
                Ok(renderer) => r.spec_gpu() == Some(renderer) && r.spec_gpu_error() is None,
                Err(e) => r.spec_gpu() is None && r.spec_gpu_error() == Some(e@),
            },
    {
        match gpu {
            Ok(renderer) => TileRasterizer { gpu: Some(renderer), gpu_error: None },
            Err(e) => TileRasterizer { gpu: None, gpu_error: Some(e) },
        }
    }

    /// A rasterizer for builds that leave the GPU out: every batch routes
    /// through the CPU path.
    pub fn without_gpu() -> (r: Self)
        ensures
            r.spec_gpu() is None,
            r.spec_gpu_error() == Some("built without GPU support"@),
    {
        TileRasterizer::new(Err("built without GPU support".to_string()))
    }

    /// Why the GPU path was unavailable, or `None` when it is in use.
    pub fn gpu_error(&self) -> (r: Option<&str>)
        ensures
            r is None <==> self.spec_gpu() is Some,
            match r {
                Some(e) => self.spec_gpu_error() == Some(e@),
                None => self.spec_gpu_error() is None,
            },
    {
        proof {
            use_type_invariant(self);
        }
        match &self.gpu_error {
            Some(e) => Some(e.as_str()),
            None => None,
        }
    }

    /// True when batches run on the GPU.
    pub fn is_gpu(&self) -> (r: bool)
        ensures
            r == (self.spec_gpu() is Some),
            r == (self.spec_gpu_error() is None),
    {
        proof {
            use_type_invariant(self);
        }
        self.gpu.is_some()
    }

    /// Name of the GPU adapter in use, e.g.
    /// `"Apple M1 Pro (IntegratedGpu, Metal)"`.
    ///
    /// `None` on the CPU path.
    pub fn gpu_info(&self) -> (r: Option<&str>)
        ensures
            match r {
                Some(info) => self.spec_gpu() matches Some(renderer) && info@
                    == renderer.spec_adapter_info(),
                None => self.spec_gpu() is None,
            },
    {
        match &self.gpu {
            Some(renderer) => Some(renderer.adapter_info()),
            None => None,
        }
    }

    /// Opens a batch that rasterizes every job with the given stroke width,
    /// anti-aliasing and opacity, and gives tiles in input order.
    ///
    /// Color is not a parameter: coverage is color-free, and
    /// [`encode_indexed_coverage_rgb`](crate::raster::encode_indexed_coverage_rgb)
    /// applies the real color downstream. Only `alpha` (opacity, `0..=255`) is
    /// baked into the coverage. `stroke_width` is the bits of a
    /// single-precision number.
    pub fn render_batch<'a>(
        &self,
        jobs: &'a [TileJob<'a>],
        stroke_width: u32,
        anti_alias: bool,
        alpha: u8,
    ) -> (r: Batch<'a>)
        ensures
            r.wf(),
            r.jobs() == jobs@,
            r.tiles() == Seq::<TileValue>::empty(),
            r.budget() == (match self.spec_gpu() {
                Some(renderer) => Some(renderer.spec_max_vert_bytes()),
                None => None,
            }),
            r.spec_style() == batch_style(stroke_width, anti_alias, alpha),
            r.spec_style().stroke_width == stroke_width,
            r.spec_style().anti_alias == anti_alias,
            r.spec_style().color_rgba == (0x00u8, 0x7Au8, 0xFFu8, alpha),
    {
        let (red, green, blue) = DEFAULT_RGB;
        let style = TileStyle { color_rgba: (red, green, blue, alpha), stroke_width, anti_alias };
        let budget = match &self.gpu {
            Some(renderer) => Some(renderer.max_vert_bytes()),
            None => None,
        };
        start_batch(jobs, style, budget)
    }
}

} // verus!
