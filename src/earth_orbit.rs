//! Choosing between two occurrences of a solstice or an equinox.
//!
//! The instant of an event in the year of a timestamp is computed elsewhere,
//! in floating point. What is decided here is whether that occurrence is the
//! one asked for, or whether the event must be computed again a year away.
use vstd::prelude::*;

verus! {

/// The solstices and equinoxes.
#[derive(Clone, Copy, Debug, PartialEq, Eq, Structural)]
pub enum Event {
    MarchEquinox,
    JuneSolstice,
    SeptemberEquinox,
    DecemberSolstice,
}

/// 365.25 days, in seconds: how far to move to reach the neighbouring year.
pub const YEAR_SHIFT: i64 = 31557600;

/// What a look at one occurrence of an event decides.
#[derive(Clone, Copy, Debug, PartialEq, Eq, Structural)]
pub enum Lookup {
    /// This is the occurrence asked for.
    Found(i64),
    /// Compute the event again for the year of this timestamp; that
    /// occurrence is the one asked for.
    Retry(i64),
}

pub open spec fn spec_previous(timestamp: int, time_of_event: int) -> Lookup {
    if time_of_event >= timestamp {
        Lookup::Retry((timestamp - YEAR_SHIFT) as i64)
    } else {
        Lookup::Found(time_of_event as i64)
    }
}

pub open spec fn spec_next(timestamp: int, time_of_event: int) -> Lookup {
    if time_of_event <= timestamp {
        Lookup::Retry((timestamp + YEAR_SHIFT) as i64)
    } else {
        Lookup::Found(time_of_event as i64)
    }
}

/// The last occurrence strictly before `timestamp`, given the occurrence
/// `time_of_event` in the year of `timestamp`: that one if it is earlier, else
/// the one in the year before. An occurrence at `timestamp` itself is not
/// earlier.
pub fn get_previous_time_of(timestamp: i64, time_of_event: i64) -> (r: Lookup)
    requires
        i64::MIN + YEAR_SHIFT <= timestamp,
    ensures
        r == spec_previous(timestamp as int, time_of_event as int),
{
    if time_of_event >= timestamp {
        Lookup::Retry(timestamp - YEAR_SHIFT)
    } else {
        Lookup::Found(time_of_event)
    }
}

/// The first occurrence strictly after `timestamp`, given the occurrence
/// `time_of_event` in the year of `timestamp`: that one if it is later, else
/// the one in the year after. An occurrence at `timestamp` itself has not yet
/// come.
pub fn get_next_time_of(timestamp: i64, time_of_event: i64) -> (r: Lookup)
    requires
        timestamp <= i64::MAX - YEAR_SHIFT,
    ensures
        r == spec_next(timestamp as int, time_of_event as int),
{
    if time_of_event <= timestamp {
        Lookup::Retry(timestamp + YEAR_SHIFT)
    } else {
        Lookup::Found(time_of_event)
    }
}

/// The previous March equinox; `time_of_event` is the March equinox of the
/// year of `timestamp`.
pub fn get_previous_march_equinox(timestamp: i64, time_of_event: i64) -> (r: Lookup)
    requires
        i64::MIN + YEAR_SHIFT <= timestamp,
    ensures
        r == spec_previous(timestamp as int, time_of_event as int),
{
    get_previous_time_of(timestamp, time_of_event)
}

/// The next March equinox; `time_of_event` is the March equinox of the year
/// of `timestamp`.
pub fn get_next_march_equinox(timestamp: i64, time_of_event: i64) -> (r: Lookup)
    requires
        timestamp <= i64::MAX - YEAR_SHIFT,
    ensures
        r == spec_next(timestamp as int, time_of_event as int),
{
    get_next_time_of(timestamp, time_of_event)
}

/// The previous June solstice; `time_of_event` is the June solstice of the
/// year of `timestamp`.
pub fn get_previous_june_solstice(timestamp: i64, time_of_event: i64) -> (r: Lookup)
    requires
        i64::MIN + YEAR_SHIFT <= timestamp,
    ensures
        r == spec_previous(timestamp as int, time_of_event as int),
{
    get_previous_time_of(timestamp, time_of_event)
}

/// The next June solstice; `time_of_event` is the June solstice of the year
/// of `timestamp`.
pub fn get_next_june_solstice(timestamp: i64, time_of_event: i64) -> (r: Lookup)
    requires
        timestamp <= i64::MAX - YEAR_SHIFT,
    ensures
        r == spec_next(timestamp as int, time_of_event as int),
{
    get_next_time_of(timestamp, time_of_event)
}

/// The previous September equinox; `time_of_event` is the September equinox
/// of the year of `timestamp`.
pub fn get_previous_september_equinox(timestamp: i64, time_of_event: i64) -> (r: Lookup)
    requires
        i64::MIN + YEAR_SHIFT <= timestamp,
    ensures
        r == spec_previous(timestamp as int, time_of_event as int),
{
    get_previous_time_of(timestamp, time_of_event)
}

/// The next September equinox; `time_of_event` is the September equinox of
/// the year of `timestamp`.
pub fn get_next_september_equinox(timestamp: i64, time_of_event: i64) -> (r: Lookup)
    requires
        timestamp <= i64::MAX - YEAR_SHIFT,
    ensures
        r == spec_next(timestamp as int, time_of_event as int),
{
    get_next_time_of(timestamp, time_of_event)
}

/// The previous December solstice; `time_of_event` is the December solstice
/// of the year of `timestamp`.
pub fn get_previous_december_solstice(timestamp: i64, time_of_event: i64) -> (r: Lookup)
    requires
        i64::MIN + YEAR_SHIFT <= timestamp,
    ensures
        r == spec_previous(timestamp as int, time_of_event as int),
{
    get_previous_time_of(timestamp, time_of_event)
}

/// The next December solstice; `time_of_event` is the December solstice of
/// the year of `timestamp`.
pub fn get_next_december_solstice(timestamp: i64, time_of_event: i64) -> (r: Lookup)
    requires
        timestamp <= i64::MAX - YEAR_SHIFT,
    ensures
        r == spec_next(timestamp as int, time_of_event as int),
{
    get_next_time_of(timestamp, time_of_event)
}

/// The event that follows `e` in the year: the order in which solar months
/// begin.
pub open spec fn spec_following(e: Event) -> Event {
    match e {
        Event::MarchEquinox => Event::JuneSolstice,
        Event::JuneSolstice => Event::SeptemberEquinox,
        Event::SeptemberEquinox => Event::DecemberSolstice,
        Event::DecemberSolstice => Event::MarchEquinox,
    }
}

/// The event that follows `e` in the year.
pub fn following(e: Event) -> (r: Event)
    ensures
        r == spec_following(e),
{
    match e {
        Event::MarchEquinox => Event::JuneSolstice,
        Event::JuneSolstice => Event::SeptemberEquinox,
        Event::SeptemberEquinox => Event::DecemberSolstice,
        Event::DecemberSolstice => Event::MarchEquinox,
    }
}

} // verus!
