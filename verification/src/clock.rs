//! Time, counted in nanoseconds.

use std::time::Duration;
use vstd::prelude::*;

verus! {

/// How many nanoseconds [`Duration::as_nanos`] counts in a duration.
pub uninterp spec fn nanos(duration: Duration) -> u128;

/// `Duration::as_nanos`: the count depends on the duration alone and is called
/// [`nanos`].
pub assume_specification[ Duration::as_nanos ](duration: &Duration) -> (count: u128)
    ensures
        count == nanos(*duration),
;

/// `Duration::from_secs`: the duration has that many whole seconds and nothing
/// beside them, and so a thousand million nanoseconds for each.
pub assume_specification[ Duration::from_secs ](secs: u64) -> (duration: Duration)
    ensures
        nanos(duration) == secs * 1_000_000_000,
;

/// `Duration::saturating_sub`: the difference of the two durations, or zero
/// where the second is the longer one.
pub assume_specification[ Duration::saturating_sub ](duration: Duration, rhs: Duration) -> (rest:
    Duration)
    ensures
        nanos(rest) == (if nanos(rhs) <= nanos(duration) {
            nanos(duration) - nanos(rhs)
        } else {
            0
        }),
;

} // verus!
