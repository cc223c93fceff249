//! Errors of building a Thaimeleon scheme.
use crate::accent_hues::AccentHueBuilderError;
use crate::neutral_color_builder::NeutralColorBuilderError;
use crate::parse_image::ParseImageError;
use vstd::prelude::*;
use vstd::std_specs::convert::FromSpecImpl;

verus! {

/// This error describes errors from scheme builder
#[derive(Debug, PartialEq, Eq, Clone, Copy)]
#[non_exhaustive]
pub enum GenerationError {
    /// Failed to parse the image.
    ParseImage(ParseImageError),
    /// Failed to generate a neutral color.
    NeutralColorGeneration(NeutralColorBuilderError),
    /// Failed to generate accent hues.
    AccentHueGeneration(AccentHueBuilderError),
    /// No room to place surface_low between base and the gamut boundary.
    NoRoomForLowSurface,
    /// The baseline chroma is too low to derive an accent color at the requested hue.
    LowBaselineChroma,
    /// The accent hue generator returned a wrong number of hues.
    WrongAccentHueCount,
}

impl From<ParseImageError> for GenerationError {
    fn from(err: ParseImageError) -> (r: Self) {
        GenerationError::ParseImage(err)
    }
}

impl FromSpecImpl<ParseImageError> for GenerationError {
    open spec fn obeys_from_spec() -> bool {
        true
    }

    open spec fn from_spec(v: ParseImageError) -> Self {
        GenerationError::ParseImage(v)
    }
}

impl From<NeutralColorBuilderError> for GenerationError {
    fn from(err: NeutralColorBuilderError) -> (r: Self) {
        GenerationError::NeutralColorGeneration(err)
    }
}

impl FromSpecImpl<NeutralColorBuilderError> for GenerationError {
    open spec fn obeys_from_spec() -> bool {
        true
    }

    open spec fn from_spec(v: NeutralColorBuilderError) -> Self {
        GenerationError::NeutralColorGeneration(v)
    }
}

impl From<AccentHueBuilderError> for GenerationError {
    fn from(err: AccentHueBuilderError) -> (r: Self) {
        GenerationError::AccentHueGeneration(err)
    }
}

impl FromSpecImpl<AccentHueBuilderError> for GenerationError {
    open spec fn obeys_from_spec() -> bool {
        true
    }

    open spec fn from_spec(v: AccentHueBuilderError) -> Self {
        GenerationError::AccentHueGeneration(v)
    }
}

} // verus!
