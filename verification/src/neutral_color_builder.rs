//! Errors of building a neutral color.
use vstd::prelude::*;

verus! {

/// Errors raised while computing a neutral color.
#[derive(PartialEq, Eq, Debug, Clone, Copy)]
#[non_exhaustive]
pub enum NeutralColorBuilderError {
    /// The lightness center was not configured on the neutral color builder.
    NoLightnessCenterSet,
    /// No color profiles were supplied to the neutral color builder.
    EmptyInput,
    /// The neutral color builder failed to converge.
    Other,
}

} // verus!
