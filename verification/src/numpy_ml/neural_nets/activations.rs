//! Activation functions of neural-network layers: their kinds and names.
//! (Evaluating them works on floating-point arrays.)
use crate::numpy_ml::neural_nets::{bytes_eq, bytes_starts_with, has_prefix};
use vstd::prelude::*;
use vstd::string::StringSliceAdditionalSpecFns;

verus! {
/// Logistic sigmoid activation: `1 / (1 + exp(-x))`.
#[derive(Clone, Copy, Debug, PartialEq, Eq)]
pub struct Sigmoid;

impl Sigmoid {
    /// The activation.
    pub fn new() -> (r: Self)
        ensures
            r == Sigmoid,
    {
        Sigmoid
    }

    /// The activation's name, `"Sigmoid"`.
    pub fn name(&self) -> (r: &'static str)
        ensures
            r@ == "Sigmoid"@,
    {
        "Sigmoid"
    }
}

/// ReLU activation: `max(0, x)`.
#[derive(Clone, Copy, Debug, PartialEq, Eq)]
pub struct ReLU;

impl ReLU {
    /// The activation.
    pub fn new() -> (r: Self)
        ensures
            r == ReLU,
    {
        ReLU
    }

    /// The activation's name, `"ReLU"`.
    pub fn name(&self) -> (r: &'static str)
        ensures
            r@ == "ReLU"@,
    {
        "ReLU"
    }
}

/// Hyperbolic tangent activation.
#[derive(Clone, Copy, Debug, PartialEq, Eq)]
pub struct Tanh;

impl Tanh {
    /// The activation.
    pub fn new() -> (r: Self)
        ensures
            r == Tanh,
    {
        Tanh
    }

    /// The activation's name, `"Tanh"`.
    pub fn name(&self) -> (r: &'static str)
        ensures
            r@ == "Tanh"@,
    {
        "Tanh"
    }
}

/// Identity activation: `x`.
#[derive(Clone, Copy, Debug, PartialEq, Eq)]
pub struct Identity;

impl Identity {
    /// The activation.
    pub fn new() -> (r: Self)
        ensures
            r == Identity,
    {
        Identity
    }

    /// The activation's name, `"Identity"`.
    pub fn name(&self) -> (r: &'static str)
        ensures
            r@ == "Identity"@,
    {
        "Identity"
    }
}

/// Exponential activation: `exp(x)`.
#[derive(Clone, Copy, Debug, PartialEq, Eq)]
pub struct Exponential;

impl Exponential {
    /// The activation.
    pub fn new() -> (r: Self)
        ensures
            r == Exponential,
    {
        Exponential
    }

    /// The activation's name, `"Exponential"`.
    pub fn name(&self) -> (r: &'static str)
        ensures
            r@ == "Exponential"@,
    {
        "Exponential"
    }
}

/// Hard sigmoid activation: `clip(0.2 * x + 0.5, 0, 1)`.
#[derive(Clone, Copy, Debug, PartialEq, Eq)]
pub struct HardSigmoid;

impl HardSigmoid {
    /// The activation.
    pub fn new() -> (r: Self)
        ensures
            r == HardSigmoid,
    {
        HardSigmoid
    }

    /// The activation's name, `"HardSigmoid"`.
    pub fn name(&self) -> (r: &'static str)
        ensures
            r@ == "HardSigmoid"@,
    {
        "HardSigmoid"
    }
}

/// SoftPlus activation: `log(1 + exp(x))`.
#[derive(Clone, Copy, Debug, PartialEq, Eq)]
pub struct SoftPlus;

impl SoftPlus {
    /// The activation.
    pub fn new() -> (r: Self)
        ensures
            r == SoftPlus,
    {
        SoftPlus
    }

    /// The activation's name, `"SoftPlus"`.
    pub fn name(&self) -> (r: &'static str)
        ensures
            r@ == "SoftPlus"@,
    {
        "SoftPlus"
    }
}

/// GELU activation, `0.5 * x * (1 + erf(x / sqrt(2)))`, or its tanh
/// approximation when `approximate` is set.
#[derive(Clone, Copy, Debug, PartialEq, Eq)]
pub struct GELU {
    pub approximate: bool,
}

impl GELU {
    /// The activation, exact or approximate.
    pub fn new(approximate: bool) -> (r: Self)
        ensures
            r.approximate == approximate,
    {
        GELU { approximate }
    }

    /// The activation's name, `"GELU"`.
    pub fn name(&self) -> (r: &'static str)
        ensures
            r@ == "GELU"@,
    {
        "GELU"
    }
}

/// The activations that can be created by name.
#[derive(Clone, Copy, Debug, PartialEq, Eq)]
pub enum ActivationKind {
    Sigmoid,
    ReLU,
    Tanh,
    Identity,
    Exponential,
    SELU,
    HardSigmoid,
    SoftPlus,
    GELU,
    ELU,
    LeakyReLU,
    Affine,
}

/// The activation selected by the name with UTF-8 bytes `name`: an exact name, or a name
/// starting with `LeakyReLU` or `Affine`; anything else selects the identity.
pub open spec fn activation_kind_of(name: Seq<u8>) -> ActivationKind {
    if name == "Sigmoid".spec_bytes() {
        ActivationKind::Sigmoid
    } else if name == "ReLU".spec_bytes() {
        ActivationKind::ReLU
    } else if name == "Tanh".spec_bytes() {
        ActivationKind::Tanh
    } else if name == "Identity".spec_bytes() {
        ActivationKind::Identity
    } else if name == "Exponential".spec_bytes() {
        ActivationKind::Exponential
    } else if name == "SELU".spec_bytes() {
        ActivationKind::SELU
    } else if name == "HardSigmoid".spec_bytes() {
        ActivationKind::HardSigmoid
    } else if name == "SoftPlus".spec_bytes() {
        ActivationKind::SoftPlus
    } else if name == "GELU".spec_bytes() {
        ActivationKind::GELU
    } else if name == "ELU".spec_bytes() {
        ActivationKind::ELU
    } else if has_prefix(name, "LeakyReLU".spec_bytes()) {
        ActivationKind::LeakyReLU
    } else if has_prefix(name, "Affine".spec_bytes()) {
        ActivationKind::Affine
    } else {
        ActivationKind::Identity
    }
}

/// The activation that `create_activation` builds for `name`.
pub fn activation_kind(name: &str) -> (k: ActivationKind)
    ensures
        k == activation_kind_of(name.spec_bytes()),
{
    let b = name.as_bytes();
    if bytes_eq(b, "Sigmoid".as_bytes()) {
        ActivationKind::Sigmoid
    } else if bytes_eq(b, "ReLU".as_bytes()) {
        ActivationKind::ReLU
    } else if bytes_eq(b, "Tanh".as_bytes()) {
        ActivationKind::Tanh
    } else if bytes_eq(b, "Identity".as_bytes()) {
        ActivationKind::Identity
    } else if bytes_eq(b, "Exponential".as_bytes()) {
        ActivationKind::Exponential
    } else if bytes_eq(b, "SELU".as_bytes()) {
        ActivationKind::SELU
    } else if bytes_eq(b, "HardSigmoid".as_bytes()) {
        ActivationKind::HardSigmoid
    } else if bytes_eq(b, "SoftPlus".as_bytes()) {
        ActivationKind::SoftPlus
    } else if bytes_eq(b, "GELU".as_bytes()) {
        ActivationKind::GELU
    } else if bytes_eq(b, "ELU".as_bytes()) {
        ActivationKind::ELU
    } else if bytes_starts_with(b, "LeakyReLU".as_bytes()) {
        ActivationKind::LeakyReLU
    } else if bytes_starts_with(b, "Affine".as_bytes()) {
        ActivationKind::Affine
    } else {
        ActivationKind::Identity
    }
}

} // verus!
