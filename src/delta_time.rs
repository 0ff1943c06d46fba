//! From terrestrial time to universal time.
use vstd::prelude::*;

verus! {

/// Converts an instant in terrestrial (ephemeris) time to universal time by
/// subtracting delta T, `delta_seconds`, which is the whole number of seconds
/// (rounded down) that the delta T model gives for the year of `timestamp`.
pub fn terrestrial_to_universal_time(timestamp: i64, delta_seconds: i64) -> (r: i64)
    requires
        i64::MIN <= timestamp - delta_seconds <= i64::MAX,
    ensures
        r == timestamp - delta_seconds,
{
    timestamp - delta_seconds
}

} // verus!
