//! Choosing the next new moon.
//!
//! The instant of the new moon of a lunation is computed elsewhere, in
//! floating point, from a lunation number that approximates the one of a
//! timestamp. What is decided here is whether that new moon is the next one.
use vstd::prelude::*;

verus! {

/// What a look at the new moon of the approximate lunation decides.
#[derive(Clone, Copy, Debug, PartialEq, Eq, Structural)]
pub enum NewMoon {
    /// This new moon is the next one.
    Found(i64),
    /// The next new moon is that of the following lunation.
    Following,
}

pub open spec fn spec_next_new_moon(timestamp: int, new_moon: int) -> NewMoon {
    if new_moon > timestamp {
        NewMoon::Found(new_moon as i64)
    } else {
        NewMoon::Following
    }
}

/// The first new moon strictly after `timestamp`, given `new_moon`, the new
/// moon of the lunation number of `timestamp`: that one if it is later, else
/// the one of the following lunation.
pub fn get_next_new_moon(timestamp: i64, new_moon: i64) -> (r: NewMoon)
    ensures
        r == spec_next_new_moon(timestamp as int, new_moon as int),
{
    if new_moon > timestamp {
        NewMoon::Found(new_moon)
    } else {
        NewMoon::Following
    }
}

} // verus!
