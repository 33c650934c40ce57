use std::time::{Duration, Instant};
use vstd::prelude::*;

verus! {

/// A point in time as the operating system's monotonic clock gives it.
/// Nothing is known of what it holds.
#[verifier::external_type_specification]
#[verifier::external_body]
pub struct ExInstant(Instant);

/// `Instant::now` reads the clock. The result differs from call to call,
/// so nothing is claimed of it.
pub assume_specification[ Instant::now ]() -> (r: Instant);

/// `Instant::elapsed` gives the time that has passed since the instant was
/// taken. It depends on the clock, so nothing is claimed of it.
pub assume_specification[ Instant::elapsed ](instant: &Instant) -> (r: Duration);

/// `Duration::as_secs` gives the whole seconds of a duration. The duration
/// comes from the clock, so nothing is claimed of the number.
pub assume_specification[ Duration::as_secs ](duration: &Duration) -> (r: u64);

/// `Duration::subsec_nanos` gives the part of a duration below one second,
/// in nanoseconds: a number below one thousand million.
pub assume_specification[ Duration::subsec_nanos ](duration: &Duration) -> (r: u32)
    ensures
        r < 1_000_000_000,
;

/// Time that has passed, in whole seconds and the nanoseconds beyond them.
#[derive(Clone, Copy, Debug, PartialEq, Eq, Structural)]
pub struct Elapsed {
    pub secs: u64,
    pub nanos: u32,
}

/// Reads how long ago `start` was.
pub fn read(start: &Instant) -> (r: Elapsed)
    ensures
        r.nanos < 1_000_000_000,
{
    let d = start.elapsed();
    Elapsed { secs: d.as_secs(), nanos: d.subsec_nanos() }
}

} // verus!
