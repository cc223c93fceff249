//! Errors of turning an image into color profiles.
use vstd::prelude::*;

verus! {

/// Errors raised while parsing an image into color profiles.
#[derive(Debug, PartialEq, Eq, Clone, Copy)]
#[non_exhaustive]
pub enum ParseImageError {
    /// The inserted image is empty.
    EmptyInput,
    /// Image quantization failed.
    Other,
}

} // verus!
