//! The `kawase_blur` filter: its name, backends and GPU shader.
use vstd::prelude::*;
use crate::filter::{BackendSupport, GpuFilter};
use crate::filter::detect::{GpuShaderDetect, GpuShaderFallback, Wrap};
use crate::filters::shaders;

verus! {

/// The `kawase_blur` filter.
pub struct KawaseBlur;

impl GpuFilter for KawaseBlur {
    open spec fn shader_source(&self) -> &'static str {
        shaders::KAWASE_BLUR
    }

    fn gpu_shader(&self) -> (shader: &'static str) {
        shaders::KAWASE_BLUR
    }
}

impl KawaseBlur {
    /// The filter's registered name.
    pub const NAME: &'static str = "kawase_blur";

    /// The filter's registered name.
    pub fn name(&self) -> (name: &'static str)
        ensures
            name == Self::NAME,
    {
        Self::NAME
    }

    /// The filter's GPU shader, found through shader detection.
    pub fn gpu_shader(&self) -> (shader: Option<&'static str>)
        ensures
            shader == Some(shaders::KAWASE_BLUR),
    {
        (&Wrap::new(self)).ddot_gpu_shader()
    }

    /// The backends the filter runs on: the GPU too, as it has a shader.
    pub fn backend_support(&self) -> (support: BackendSupport)
        ensures
            support == BackendSupport::CpuAndGpu,
    {
        match self.gpu_shader() {
            Some(_) => BackendSupport::CpuAndGpu,
            None => BackendSupport::CpuOnly,
        }
    }
}

} // verus!
