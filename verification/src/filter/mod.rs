//! The filter vocabulary: parameter kinds, backend capabilities, parameter
//! errors, and the detection of a filter's GPU shader.
use vstd::prelude::*;

pub mod detect;
pub mod validation;

verus! {

/// The kind of value a filter parameter takes.
#[derive(Debug, Clone, Copy, PartialEq, Eq, Structural)]
pub enum ParamType {
    Int,
    Float,
}

/// The backends a filter can run on.
#[derive(Debug, Clone, Copy, PartialEq, Eq, Structural)]
pub enum BackendSupport {
    CpuOnly,
    CpuAndGpu,
}

/// A filter parameter that failed validation.
#[derive(Debug, Clone, PartialEq, Eq)]
pub enum ParamError {
    /// The value lies outside `min..max`.
    OutOfRange { name: &'static str, value: String, min: String, max: String },
    /// The value cannot be used at all.
    InvalidValue { name: &'static str, value: String },
}

/// The message that describes a parameter error.
pub open spec fn param_error_text(e: ParamError) -> Seq<char> {
    match e {
        ParamError::OutOfRange { name, value, min, max } => "parameter '"@ + name@
            + "' is out of range: "@ + value@ + " (expected "@ + min@ + ".."@ + max@ + ")"@,
        ParamError::InvalidValue { name, value } => "parameter '"@ + name@ + "' has an invalid value: "@
            + value@,
    }
}

impl ParamError {
    /// The human-readable message of the error.
    pub fn message(&self) -> (text: String)
        ensures
            text@ == param_error_text(*self),
    {
        match self {
            ParamError::OutOfRange { name, value, min, max } => {
                let mut text = String::from_str("parameter '");
                text.append(name);
                text.append("' is out of range: ");
                text.append(value.as_str());
                text.append(" (expected ");
                text.append(min.as_str());
                text.append("..");
                text.append(max.as_str());
                text.append(")");
                text
            },
            ParamError::InvalidValue { name, value } => {
                let mut text = String::from_str("parameter '");
                text.append(name);
                text.append("' has an invalid value: ");
                text.append(value.as_str());
                text
            },
        }
    }
}

/// A filter that can also run as a WGSL compute shader.
pub trait GpuFilter {
    /// The WGSL source of the filter's compute shader.
    spec fn shader_source(&self) -> &'static str;

    /// The WGSL source of the filter's compute shader.
    fn gpu_shader(&self) -> (shader: &'static str)
        ensures
            shader == self.shader_source(),
    ;
}

} // verus!
