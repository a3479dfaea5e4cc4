//! Which optimizer a name selects. (The optimizers themselves update floating-point weights.)
use crate::numpy_ml::neural_nets::bytes_eq;
use vstd::prelude::*;
use vstd::string::StringSliceAdditionalSpecFns;

verus! {

/// The optimizers that can be created by name.
#[derive(Clone, Copy, Debug, PartialEq, Eq)]
pub enum OptimizerKind {
    SGD,
    AdaGrad,
    RMSProp,
    Adam,
}

/// The optimizer selected by the name with UTF-8 bytes `name`; unknown names select SGD.
pub open spec fn optimizer_kind_of(name: Seq<u8>) -> OptimizerKind {
    if name == "SGD".spec_bytes() {
        OptimizerKind::SGD
    } else if name == "AdaGrad".spec_bytes() {
        OptimizerKind::AdaGrad
    } else if name == "RMSProp".spec_bytes() {
        OptimizerKind::RMSProp
    } else if name == "Adam".spec_bytes() {
        OptimizerKind::Adam
    } else {
        OptimizerKind::SGD
    }
}

/// The optimizer that `create_optimizer` builds for `name`.
pub fn optimizer_kind(name: &str) -> (k: OptimizerKind)
    ensures
        k == optimizer_kind_of(name.spec_bytes()),
{
    let b = name.as_bytes();
    if bytes_eq(b, "SGD".as_bytes()) {
        OptimizerKind::SGD
    } else if bytes_eq(b, "AdaGrad".as_bytes()) {
        OptimizerKind::AdaGrad
    } else if bytes_eq(b, "RMSProp".as_bytes()) {
        OptimizerKind::RMSProp
    } else if bytes_eq(b, "Adam".as_bytes()) {
        OptimizerKind::Adam
    } else {
        OptimizerKind::SGD
    }
}

} // verus!
