//! Probability distributions.
use vstd::prelude::*;

verus! {

/// The normal distribution (its density and distribution function work on
/// floating-point values).
#[derive(Clone, Copy, Debug, PartialEq, Eq)]
pub struct Norm;

} // verus!
