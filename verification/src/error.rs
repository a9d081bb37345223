//! The error taxonomy of the rendering core.
use vstd::prelude::*;

verus! {

/// What can go wrong in the rendering core. Capacity exhaustion and
/// invalid references are recoverable; protocol violations are kept
/// out of the verified functions by their preconditions.
#[derive(Debug, PartialEq, Eq)]
pub enum RenderError {
    OutOfMemory,
    TooManyObjects,
    NotSupported,
    NotFound,
    OutOfAllocatedSpace,
    NoSuitableDevice,
    ShaderReflectionFailed,
    ExtensionNotFound(String),
    NoSuitableQueue,
    Fail,
    InvalidHandle,
    OutOfTempMemory,
}

} // verus!
