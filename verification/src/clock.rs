//! Elapsed time.

use std::time::Instant;
use vstd::prelude::*;

verus! {

/// A point in time on the clock of std.
#[verifier::external_type_specification]
#[verifier::external_body]
pub struct ExInstant(std::time::Instant);

/// `Instant::now` of std. Nothing is claimed of the time it gives.
#[verifier::external_body]
pub(crate) fn now() -> (r: Instant) {
    Instant::now()
}

/// `Instant::elapsed` of std, in whole milliseconds. Nothing is claimed of the
/// time that went by.
#[verifier::external_body]
pub(crate) fn elapsed_ms(start: &Instant) -> (r: u64) {
    start.elapsed().as_millis() as u64
}

} // verus!
