//! Geodate: geocentric expressions of points in time, using a natural
//! lunisolar calendar with metric time based on decimal fractions of the
//! mean solar day.
//!
//! This crate holds the calendar's own logic: reading and writing date
//! strings, choosing an epoch, stepping day by day between astronomical
//! markers, deciding between the occurrences of seasonal and lunar events,
//! inverting a date by bisection, and keeping the ordered list of the events
//! of a day. The instants of the astronomical events themselves are computed
//! in floating point by the surrounding program and handed in as integers.
use vstd::prelude::*;

pub mod text;
pub mod reverse;
pub mod geodate;
pub mod delta_time;
pub mod earth_orbit;
pub mod moon_phase;
pub mod ephemeris;


verus! {

} // verus!
