//! Traits shared by the color types of the library.
use vstd::prelude::*;

verus! {

pub trait GetChroma {
    type Scalar;

    /// Gets the chroma of a value
    fn chroma(&self) -> Self::Scalar;
}

pub trait WithChroma: Sized {
    type Scalar;

    /// Assigns new chroma value
    fn with_chroma(self, val: Self::Scalar) -> Self;
}

pub trait SrgbClampAssign {
    /// Clamps the color into the sRGB gamut, in place.
    fn srgb_clamp_assign(&mut self);
}

pub trait SrgbClamp: Sized {
    /// The color clamped into the sRGB gamut.
    fn srgb_clamp(&self) -> Self;
}

} // verus!
