//! The wall clock, by which a search is timed.
//!
//! Nothing is claimed of what the clock shows.

use std::time::{Duration, Instant};
use vstd::prelude::*;

verus! {

/// `std::time::Instant`, a reading of the clock.
#[verifier::external_type_specification]
#[verifier::external_body]
pub struct ExInstant(std::time::Instant);

/// `Instant::now` reads the clock. Two readings may differ.
pub assume_specification[ Instant::now ]() -> Instant;

/// `Instant::elapsed` gives the time that has passed since the reading was
/// made.
pub assume_specification[ Instant::elapsed ](start: &Instant) -> Duration;

} // verus!
