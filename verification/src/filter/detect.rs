//! Detection of a GPU shader by method resolution: a method call on
//! `&Wrap::new(&filter)` finds `GpuShaderDetect` when the filter implements
//! `GpuFilter`, and falls back to `GpuShaderFallback` otherwise.
use vstd::prelude::*;
use crate::filter::GpuFilter;

verus! {

/// A borrowed filter, wrapped so that shader detection can dispatch on it.
pub struct Wrap<'a, T>(&'a T);

impl<'a, T> Wrap<'a, T> {
    /// The wrapped filter.
    pub closed spec fn inner(&self) -> &'a T {
        self.0
    }

    /// Wraps a borrowed filter.
    pub fn new(val: &'a T) -> (wrapped: Self)
        ensures
            wrapped.inner() == val,
    {
        Wrap(val)
    }
}

/// The answer for filters without a GPU shader.
pub trait GpuShaderFallback {
    fn ddot_gpu_shader(&self) -> Option<&'static str>;
}

impl<'a, 'b, T> GpuShaderFallback for &'b Wrap<'a, T> {
    fn ddot_gpu_shader(&self) -> (shader: Option<&'static str>)
        ensures
            shader is None,
    {
        None
    }
}

/// The answer for filters with a GPU shader.
pub trait GpuShaderDetect {
    fn ddot_gpu_shader(&self) -> Option<&'static str>;
}

impl<'a, T: GpuFilter> GpuShaderDetect for Wrap<'a, T> {
    fn ddot_gpu_shader(&self) -> (shader: Option<&'static str>)
        ensures
            shader == Some(self.inner().shader_source()),
    {
        Some(self.0.gpu_shader())
    }
}

} // verus!
