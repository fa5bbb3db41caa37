//! The monotonic clock.
use std::time::Instant;
use vstd::prelude::*;

verus! {

/// A point in time of the monotonic clock.
#[verifier::external_type_specification]
#[verifier::external_body]
pub struct ExInstant(std::time::Instant);

/// `Instant::clone`: an instant is a plain value, and its clone is the same one.
pub assume_specification[ <std::time::Instant as std::clone::Clone>::clone ](
    instant: &std::time::Instant,
) -> (copy: std::time::Instant)
    ensures
        copy == *instant,
;

/// `std::time::Instant::now`. Nothing is claimed of the point in time.
#[verifier::external_body]
pub(crate) fn now() -> (instant: Instant) {
    Instant::now()
}

/// `Instant::duration_since`: the nanoseconds from one point in time to
/// another.
pub uninterp spec fn time_between(earlier: Instant, later: Instant) -> u64;

/// `Instant::duration_since` in nanoseconds. Claims that the distance depends
/// on the two points in time alone; how large it is, is left to the name
/// [`time_between`].
#[verifier::external_body]
pub(crate) fn nanoseconds_between(earlier: &Instant, later: &Instant) -> (nanoseconds: u64)
    ensures
        nanoseconds == time_between(*earlier, *later),
{
    later.duration_since(*earlier).as_nanos() as u64
}

} // verus!
