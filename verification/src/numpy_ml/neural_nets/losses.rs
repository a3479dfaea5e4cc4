//! Loss functions of neural networks: their kinds and names.
//! (Evaluating them works on floating-point arrays.)
use crate::numpy_ml::neural_nets::bytes_eq;
use vstd::prelude::*;
use vstd::string::StringSliceAdditionalSpecFns;

verus! {
/// Squared error (L2) loss: `0.5 * ||y_pred - y||^2` averaged over the entries.
#[derive(Clone, Copy, Debug, PartialEq, Eq)]
pub struct SquaredError;

impl SquaredError {
    /// The loss.
    pub fn new() -> (r: Self)
        ensures
            r == SquaredError,
    {
        SquaredError
    }

    /// The loss's name, `"SquaredError"`.
    pub fn name(&self) -> (r: &'static str)
        ensures
            r@ == "SquaredError"@,
    {
        "SquaredError"
    }
}

/// Cross-entropy loss: `-sum(y * log(y_pred))`.
#[derive(Clone, Copy, Debug, PartialEq, Eq)]
pub struct CrossEntropy;

impl CrossEntropy {
    /// The loss.
    pub fn new() -> (r: Self)
        ensures
            r == CrossEntropy,
    {
        CrossEntropy
    }

    /// The loss's name, `"CrossEntropy"`.
    pub fn name(&self) -> (r: &'static str)
        ensures
            r@ == "CrossEntropy"@,
    {
        "CrossEntropy"
    }
}

/// Binary cross-entropy loss, taken after an output activation.
#[derive(Clone, Copy, Debug, PartialEq, Eq)]
pub struct BinaryCrossEntropy;

impl BinaryCrossEntropy {
    /// The loss.
    pub fn new() -> (r: Self)
        ensures
            r == BinaryCrossEntropy,
    {
        BinaryCrossEntropy
    }
}

/// Variational lower bound loss for a Bernoulli VAE: reconstruction plus KL divergence.
#[derive(Clone, Copy, Debug, PartialEq, Eq)]
pub struct VAELoss;

impl VAELoss {
    /// The loss.
    pub fn new() -> (r: Self)
        ensures
            r == VAELoss,
    {
        VAELoss
    }
}

/// The losses that can be created by name.
#[derive(Clone, Copy, Debug, PartialEq, Eq)]
pub enum LossKind {
    SquaredError,
    CrossEntropy,
}

/// The loss selected by the name with UTF-8 bytes `name`; unknown names select the squared error.
pub open spec fn loss_kind_of(name: Seq<u8>) -> LossKind {
    if name == "SquaredError".spec_bytes() {
        LossKind::SquaredError
    } else if name == "CrossEntropy".spec_bytes() {
        LossKind::CrossEntropy
    } else {
        LossKind::SquaredError
    }
}

/// The loss that `create_loss` builds for `name`.
pub fn loss_kind(name: &str) -> (k: LossKind)
    ensures
        k == loss_kind_of(name.spec_bytes()),
{
    let b = name.as_bytes();
    if bytes_eq(b, "SquaredError".as_bytes()) {
        LossKind::SquaredError
    } else if bytes_eq(b, "CrossEntropy".as_bytes()) {
        LossKind::CrossEntropy
    } else {
        LossKind::SquaredError
    }
}

} // verus!
