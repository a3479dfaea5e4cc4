//! Which kernel a name selects. (The kernels themselves are evaluated on floating-point vectors.)
use crate::numpy_ml::neural_nets::bytes_eq;
use vstd::prelude::*;
use vstd::string::StringSliceAdditionalSpecFns;

verus! {

/// The kernels that can be created by name.
#[derive(Clone, Copy, Debug, PartialEq, Eq)]
pub enum KernelKind {
    Linear,
    Polynomial,
    RBF,
}

/// The kernel selected by the optional name with UTF-8 bytes `param`: no name selects the
/// linear kernel; `None` for an unknown name.
pub open spec fn kernel_kind_of(param: Option<Seq<u8>>) -> Option<KernelKind> {
    match param {
        None => Some(KernelKind::Linear),
        Some(name) => if name == "linear".spec_bytes() || name == "LinearKernel".spec_bytes() {
            Some(KernelKind::Linear)
        } else if name == "polynomial".spec_bytes() || name == "PolynomialKernel".spec_bytes() {
            Some(KernelKind::Polynomial)
        } else if name == "rbf".spec_bytes() || name == "RBFKernel".spec_bytes() {
            Some(KernelKind::RBF)
        } else {
            None
        },
    }
}

/// The kernel that `kernel_initializer` builds for `param`; `None` for an unknown name.
pub fn kernel_kind(param: Option<&str>) -> (k: Option<KernelKind>)
    ensures
        k == kernel_kind_of(
            match param {
                Some(name) => Some(name.spec_bytes()),
                None => None,
            },
        ),
{
    match param {
        None => Some(KernelKind::Linear),
        Some(name) => {
            let b = name.as_bytes();
            if bytes_eq(b, "linear".as_bytes()) || bytes_eq(b, "LinearKernel".as_bytes()) {
                Some(KernelKind::Linear)
            } else if bytes_eq(b, "polynomial".as_bytes()) || bytes_eq(b, "PolynomialKernel".as_bytes()) {
                Some(KernelKind::Polynomial)
            } else if bytes_eq(b, "rbf".as_bytes()) || bytes_eq(b, "RBFKernel".as_bytes()) {
                Some(KernelKind::RBF)
            } else {
                None
            }
        },
    }
}

} // verus!
