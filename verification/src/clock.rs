//! How long work takes, by the clock of the machine.

use std::time::Instant;
use vstd::prelude::*;

verus! {

/// Stands for `std::time::Instant`: a moment on the clock.
#[verifier::external_type_specification]
#[verifier::external_body]
pub struct ExInstant(Instant);

/// `std::time::Instant::now`: this moment. Nothing is claimed of it.
#[verifier::external_body]
pub(crate) fn now() -> (moment: Instant) {
    Instant::now()
}

/// `std::time::Instant::elapsed`: the time since `moment`, as nanoseconds. Nothing is claimed of
/// how long it is.
#[verifier::external_body]
pub(crate) fn nanos_since(moment: &Instant) -> (nanos: u64) {
    moment.elapsed().as_nanos() as u64
}

} // verus!
