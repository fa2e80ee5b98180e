//! The `noise` filter: its name and backends. It has no GPU shader.
use vstd::prelude::*;
use crate::filter::BackendSupport;
#[allow(unused_imports)]
use crate::filter::detect::{GpuShaderDetect, GpuShaderFallback, Wrap};

verus! {

/// The `noise` filter.
pub struct Noise;

impl Noise {
    /// The filter's registered name.
    pub const NAME: &'static str = "noise";

    /// The filter's registered name.
    pub fn name(&self) -> (name: &'static str)
        ensures
            name == Self::NAME,
    {
        Self::NAME
    }

    /// The filter's GPU shader, found through shader detection: none.
    pub fn gpu_shader(&self) -> (shader: Option<&'static str>)
        ensures
            shader is None,
    {
        (&Wrap::new(self)).ddot_gpu_shader()
    }

    /// The backends the filter runs on: the CPU only, as it has no shader.
    pub fn backend_support(&self) -> (support: BackendSupport)
        ensures
            support == BackendSupport::CpuOnly,
    {
        match self.gpu_shader() {
            Some(_) => BackendSupport::CpuAndGpu,
            None => BackendSupport::CpuOnly,
        }
    }
}

} // verus!
