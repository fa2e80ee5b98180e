//! The `adjustment` filter: its name, backends and GPU shader.
use vstd::prelude::*;
use crate::filter::{BackendSupport, GpuFilter};
use crate::filter::detect::{GpuShaderDetect, GpuShaderFallback, Wrap};
use crate::filters::shaders;
use crate::image::Color;

verus! {

/// The `adjustment` filter.
pub struct Adjustment;

impl GpuFilter for Adjustment {
    open spec fn shader_source(&self) -> &'static str {
        shaders::ADJUSTMENT
    }

    fn gpu_shader(&self) -> (shader: &'static str) {
        shaders::ADJUSTMENT
    }
}

impl Adjustment {
    /// The filter's registered name.
    pub const NAME: &'static str = "adjustment";

    /// The filter's registered name.
    pub fn name(&self) -> (name: &'static str)
        ensures
            name == Self::NAME,
    {
        Self::NAME
    }

    /// The filter's GPU shader, found through shader detection.
    pub fn gpu_shader(&self) -> (shader: Option<&'static str>)
        ensures
            shader == Some(shaders::ADJUSTMENT),
    {
        (&Wrap::new(self)).ddot_gpu_shader()
    }

    /// The backends the filter runs on: the GPU too, as it has a shader.
    pub fn backend_support(&self) -> (support: BackendSupport)
        ensures
            support == BackendSupport::CpuAndGpu,
    {
        match self.gpu_shader() {
            Some(_) => BackendSupport::CpuAndGpu,
            None => BackendSupport::CpuOnly,
        }
    }
}

impl Adjustment {
    /// Maps the red, green and blue channels of `color` through the lookup
    /// table `lut`; alpha is kept.
    pub fn apply_lut(color: &mut Color, lut: &[u8; 256])
        ensures
            final(color).r == lut@[old(color).r as int],
            final(color).g == lut@[old(color).g as int],
            final(color).b == lut@[old(color).b as int],
            final(color).a == old(color).a,
    {
        color.r = lut[color.r as usize];
        color.g = lut[color.g as usize];
        color.b = lut[color.b as usize];
    }
}

} // verus!
