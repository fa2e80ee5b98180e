//! The choice of backend for one filter step: the requested backend and
//! whether the filter has a GPU shader decide what runs first, and the
//! GPU's outcome decides what follows.
use vstd::prelude::*;
use crate::filters::same_text;

verus! {

/// The backend a pipeline asks for.
#[derive(Debug, Clone, Copy, PartialEq, Eq, Structural)]
pub enum Backend {
    /// The CPU only.
    Cpu,
    /// The GPU; the CPU, with a warning, for filters without a shader or
    /// when no GPU can be had.
    Gpu,
    /// The GPU when it can be had, silently the CPU otherwise.
    Auto,
}

/// What to run first for a filter step.
#[derive(Debug, Clone, Copy, PartialEq, Eq, Structural)]
pub enum FirstStep {
    /// Apply the filter on the CPU.
    Cpu,
    /// Warn that the filter has no GPU shader, then apply it on the CPU.
    CpuWithWarning,
    /// Run the filter's shader on the GPU.
    Gpu,
}

/// How a GPU run ended.
#[derive(Debug, Clone, Copy, PartialEq, Eq, Structural)]
pub enum GpuOutcome {
    /// The shader ran and the pixels were read back.
    Done,
    /// No GPU device could be had.
    Unavailable,
    /// The GPU was there but the run failed.
    Failed,
}

/// What follows a GPU run.
#[derive(Debug, Clone, Copy, PartialEq, Eq, Structural)]
pub enum AfterGpu {
    /// The step is done.
    Done,
    /// Apply the filter on the CPU instead.
    FallBackToCpu,
    /// Warn that the GPU is unavailable, then apply the filter on the CPU.
    FallBackToCpuWithWarning,
    /// The step fails with the GPU's error.
    Fail,
}

/// The backend named by `name`: `cpu`, `gpu`, and anything else is `auto`.
pub open spec fn backend_named(name: Seq<char>) -> Backend {
    if name == "cpu"@ {
        Backend::Cpu
    } else if name == "gpu"@ {
        Backend::Gpu
    } else {
        Backend::Auto
    }
}

/// Reads the backend a pipeline names.
pub fn parse_backend(name: &str) -> (backend: Backend)
    ensures
        backend == backend_named(name@),
{
    if same_text(name, "cpu") {
        Backend::Cpu
    } else if same_text(name, "gpu") {
        Backend::Gpu
    } else {
        Backend::Auto
    }
}

/// What runs first: the GPU when a GPU run is allowed and the filter has a
/// shader; the CPU otherwise, with a warning when the GPU was demanded.
pub fn first_step(backend: Backend, has_shader: bool) -> (step: FirstStep)
    ensures
        step == match backend {
            Backend::Cpu => FirstStep::Cpu,
            Backend::Gpu => if has_shader {
                FirstStep::Gpu
            } else {
                FirstStep::CpuWithWarning
            },
            Backend::Auto => if has_shader {
                FirstStep::Gpu
            } else {
                FirstStep::Cpu
            },
        },
{
    match backend {
        Backend::Cpu => FirstStep::Cpu,
        Backend::Gpu => {
            if has_shader {
                FirstStep::Gpu
            } else {
                FirstStep::CpuWithWarning
            }
        },
        Backend::Auto => {
            if has_shader {
                FirstStep::Gpu
            } else {
                FirstStep::Cpu
            }
        },
    }
}

/// What follows a GPU run: a success ends the step; a missing GPU falls back
/// to the CPU, silently under `auto` and with a warning when the GPU was
/// demanded; any other failure fails the step.
pub fn after_gpu(backend: Backend, outcome: GpuOutcome) -> (next: AfterGpu)
    ensures
        next == match outcome {
            GpuOutcome::Done => AfterGpu::Done,
            GpuOutcome::Unavailable => if backend == Backend::Auto {
                AfterGpu::FallBackToCpu
            } else {
                AfterGpu::FallBackToCpuWithWarning
            },
            GpuOutcome::Failed => AfterGpu::Fail,
        },
{
    match outcome {
        GpuOutcome::Done => AfterGpu::Done,
        GpuOutcome::Unavailable => {
            match backend {
                Backend::Auto => AfterGpu::FallBackToCpu,
                _ => AfterGpu::FallBackToCpuWithWarning,
            }
        },
        GpuOutcome::Failed => AfterGpu::Fail,
    }
}

} // verus!
