//! Exact non-negative ratios, for quantities the analysis reports as fractions.
use vstd::prelude::*;

verus! {

/// The fraction `numerator / denominator`; every ratio the library returns
/// has a positive denominator.
#[derive(Clone, Copy, Debug, PartialEq, Eq, Structural)]
pub struct Ratio {
    pub numerator: u128,
    pub denominator: u128,
}

} // verus!
