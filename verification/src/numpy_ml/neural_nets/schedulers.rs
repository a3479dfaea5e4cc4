//! Which learning-rate scheduler a name selects. (The schedules themselves are floating-point.)
use crate::numpy_ml::neural_nets::bytes_eq;
use vstd::prelude::*;
use vstd::string::StringSliceAdditionalSpecFns;

verus! {

/// The schedulers that can be created by name.
#[derive(Clone, Copy, Debug, PartialEq, Eq)]
pub enum SchedulerKind {
    Constant,
    Exponential,
    Noam,
}

/// The scheduler selected by the name with UTF-8 bytes `name`; unknown names select the
/// constant schedule.
pub open spec fn scheduler_kind_of(name: Seq<u8>) -> SchedulerKind {
    if name == "ConstantScheduler".spec_bytes() {
        SchedulerKind::Constant
    } else if name == "ExponentialScheduler".spec_bytes() {
        SchedulerKind::Exponential
    } else if name == "NoamScheduler".spec_bytes() {
        SchedulerKind::Noam
    } else {
        SchedulerKind::Constant
    }
}

/// The scheduler that `create_scheduler` builds for `name`.
pub fn scheduler_kind(name: &str) -> (k: SchedulerKind)
    ensures
        k == scheduler_kind_of(name.spec_bytes()),
{
    let b = name.as_bytes();
    if bytes_eq(b, "ConstantScheduler".as_bytes()) {
        SchedulerKind::Constant
    } else if bytes_eq(b, "ExponentialScheduler".as_bytes()) {
        SchedulerKind::Exponential
    } else if bytes_eq(b, "NoamScheduler".as_bytes()) {
        SchedulerKind::Noam
    } else {
        SchedulerKind::Constant
    }
}

} // verus!
