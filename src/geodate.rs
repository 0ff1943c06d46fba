//! Constructing a geodate: choose an epoch, step one day at a time from it
//! to the day of the instant, counting months and years at the astronomical
//! markers met on the way, and write the result into a format.
use vstd::prelude::*;

use crate::reverse::{
    fields, lemma_fields_colon, lemma_fields_extend, lemma_strip_colons_concat, lemma_strip_colons_none,
    no_colon, rem_trunc, spec_date_index, strip_colons,
};
use crate::text::{
    all_digits, chars_of, contains_token, digits_value, has_token, is_digit, lemma_digits_value_concat,
    lemma_padded_two_digits, padded, pow10, push_char, push_padded, push_signed, signed_decimal,
};

verus! {

/// Where years are counted from.
#[derive(Clone, Copy, Debug, PartialEq, Eq, Structural)]
pub enum Epoch {
    /// From the first new moon day of 1900 (`%y`).
    Gregorian,
    /// From the first new moon day of 1970 (`%u`).
    Unix,
}

/// What starts a month.
#[derive(Clone, Copy, Debug, PartialEq, Eq, Structural)]
pub enum Calendar {
    /// A new moon; years begin at the December solstice.
    Lunisolar,
    /// An equinox or a solstice; four months make a year.
    Solar,
}

/// Why a geodate could not be built.
#[derive(Clone, Copy, Debug, PartialEq, Eq, Structural)]
pub enum CalendarError {
    /// The instant precedes the earliest epoch.
    TooFarBack,
    /// The markers handed in end before the day of the instant.
    MissingMarker,
}

pub const DAY: i64 = 86400;

/// The slack, in seconds, by which the walk may stop short of the midnight
/// of the instant (the mean solar day is an approximation).
pub const SLACK: i64 = 2000;

/// The epochs, latest first: 1970-01-01, 1957-01-01, 1938-01-01, 1900-01-01,
/// 1699-01-01, 1623-01-01. Each of these days is a new moon day, and the
/// delta time formula does not reach before 1620.
pub open spec fn spec_epochs() -> Seq<i64> {
    seq![0i64, -410227200i64, -1009843200i64, -2208988800i64, -8551872000i64, -10950249600i64]
}

/// The epochs, latest first.
pub fn epochs() -> (r: Vec<i64>)
    ensures
        r@ == spec_epochs(),
{
    let r: Vec<i64> = vec![0, -410227200, -1009843200, -2208988800, -8551872000, -10950249600];
    proof {
        assert(r@ =~= spec_epochs());
    }
    r
}

/// Where the years of an epoch are counted from: the epoch itself.
pub open spec fn spec_epoch_zero(e: Epoch) -> i64 {
    match e {
        Epoch::Unix => spec_epochs()[0],
        Epoch::Gregorian => spec_epochs()[3],
    }
}

pub fn epoch_zero(e: Epoch) -> (r: i64)
    ensures
        r == spec_epoch_zero(e),
{
    match e {
        Epoch::Unix => 0,
        Epoch::Gregorian => -2208988800,
    }
}

/// The first of `starts` that precedes `now`.
pub open spec fn is_first_before(starts: Seq<i64>, now: i64, i: int) -> bool {
    0 <= i < starts.len() && starts[i] < now && forall|j: int| 0 <= j < i ==> now <= #[trigger] starts[j]
}

/// Whether no start precedes `now`, and `now` is not the last start either:
/// the instant is before every epoch.
pub open spec fn too_far_back(starts: Seq<i64>, now: i64) -> bool {
    starts.len() == 0 || ((forall|j: int| 0 <= j < starts.len() ==> now <= #[trigger] starts[j])
        && now != starts.last())
}

/// Picks the epoch to start from. `starts[i]` is the midnight that begins
/// the first new moon day after the `i`-th epoch; the first of them that
/// precedes `now` is taken, which, the epochs being latest first, is the
/// nearest. Where none precedes it but `now` is the last start itself, the
/// last epoch is taken: its first day begins at `now`.
pub fn choose_epoch(now: i64, starts: &Vec<i64>) -> (r: Result<usize, CalendarError>)
    ensures
        r matches Ok(i) ==> is_first_before(starts@, now, i as int) || (i == starts@.len() - 1
            && now == starts@.last() && forall|j: int|
            0 <= j < starts@.len() ==> now <= #[trigger] starts@[j]),
        r is Err <==> too_far_back(starts@, now),
        r is Err ==> r == Err::<usize, CalendarError>(CalendarError::TooFarBack),
{
    let mut i: usize = 0;
    while i < starts.len()
        invariant
            i <= starts@.len(),
            forall|j: int| 0 <= j < i ==> now <= #[trigger] starts@[j],
        decreases starts@.len() - i,
    {
        if starts[i] < now {
            return Ok(i);
        }
        i = i + 1;
    }
    let n = starts.len();
    if n > 0 && starts[n - 1] == now {
        return Ok(n - 1);
    }
    Err(CalendarError::TooFarBack)
}

pub open spec fn spec_settle_midnight(now: int, midnight: int) -> int {
    if midnight > now {
        midnight - DAY
    } else if midnight <= now - DAY {
        midnight + DAY
    } else {
        midnight
    }
}

/// Moves a computed midnight by a day where it landed on the wrong side of
/// `now`: the transit formula sometimes gives the midnight of an adjacent day.
pub fn settle_midnight(now: i64, midnight: i64) -> (r: i64)
    requires
        i64::MIN + DAY <= midnight <= i64::MAX - DAY,
    ensures
        r == spec_settle_midnight(now as int, midnight as int),
        now - 2 * DAY < midnight <= now + DAY ==> r <= now < r + DAY,
{
    if midnight > now {
        midnight - DAY
    } else if midnight <= now - DAY {
        midnight + DAY
    } else {
        midnight
    }
}

/// The counters of the walk, the time reached, and how many month and year
/// markers have been passed.
pub struct WalkState {
    pub day: int,
    pub month: int,
    pub year: int,
    pub t: int,
    pub months_passed: int,
    pub years_passed: int,
}

pub open spec fn walk_start(zero: int) -> WalkState {
    WalkState { day: 0, month: 0, year: 0, t: zero, months_passed: 0, years_passed: 0 }
}

/// One simulated day. The month marker is looked at before the year marker.
/// `None` where a marker that the day needs is not among those given.
pub open spec fn day_step(cal: Calendar, months: Seq<i64>, years: Seq<i64>, s: WalkState) -> Option<
    WalkState,
> {
    let t = s.t + DAY;
    if !(0 <= s.months_passed < months.len()) {
        None
    } else if months[s.months_passed] < t + DAY {
        match cal {
            Calendar::Solar => if s.month + 1 == 4 {
                Some(
                    WalkState {
                        day: 0,
                        month: 0,
                        year: s.year + 1,
                        t,
                        months_passed: s.months_passed + 1,
                        years_passed: s.years_passed,
                    },
                )
            } else {
                Some(
                    WalkState {
                        day: 0,
                        month: s.month + 1,
                        year: s.year,
                        t,
                        months_passed: s.months_passed + 1,
                        years_passed: s.years_passed,
                    },
                )
            },
            Calendar::Lunisolar => if !(0 <= s.years_passed < years.len()) {
                None
            } else if years[s.years_passed] < t + DAY {
                Some(
                    WalkState {
                        day: 0,
                        month: 0,
                        year: s.year + 1,
                        t,
                        months_passed: s.months_passed + 1,
                        years_passed: s.years_passed + 1,
                    },
                )
            } else {
                Some(
                    WalkState {
                        day: 0,
                        month: s.month + 1,
                        year: s.year,
                        t,
                        months_passed: s.months_passed + 1,
                        years_passed: s.years_passed,
                    },
                )
            },
        }
    } else {
        Some(WalkState { day: s.day + 1, t, ..s })
    }
}

/// Steps from `s` until the time reached is within the slack of `midnight`.
pub open spec fn walk(
    cal: Calendar,
    months: Seq<i64>,
    years: Seq<i64>,
    midnight: int,
    s: WalkState,
) -> Option<WalkState>
    decreases if s.t < midnight {
        midnight - s.t
    } else {
        0
    },
{
    if s.t >= midnight - SLACK {
        Some(s)
    } else {
        match day_step(cal, months, years, s) {
            None => None,
            Some(n) => if n.t == s.t + DAY {
                walk(cal, months, years, midnight, n)
            } else {
                None
            },
        }
    }
}

/// Year, month and day, in the order in which they are compared.
pub open spec fn not_later(a: WalkState, b: WalkState) -> bool {
    a.year < b.year || (a.year == b.year && (a.month < b.month || (a.month == b.month && a.day
        <= b.day)))
}

pub open spec fn earlier(a: WalkState, b: WalkState) -> bool {
    not_later(a, b) && !(a.year == b.year && a.month == b.month && a.day == b.day)
}

/// The days, months and years counted from an epoch to a day.
#[derive(Clone, Copy, Debug, PartialEq, Eq, Structural)]
pub struct DayCount {
    pub year: i64,
    pub month: i64,
    pub day: i64,
}

pub const COUNT_LIMIT: i64 = 1125899906842624;

impl DayCount {
    /// Counters that a walk between two `i64` instants can reach.
    pub open spec fn wf(&self) -> bool {
        0 <= self.year <= COUNT_LIMIT && 0 <= self.month <= COUNT_LIMIT && 0 <= self.day
            <= COUNT_LIMIT
    }
}

pub open spec fn spec_count_days(
    cal: Calendar,
    zero: int,
    midnight: int,
    months: Seq<i64>,
    years: Seq<i64>,
) -> Result<DayCount, CalendarError> {
    match walk(cal, months, years, midnight, walk_start(zero)) {
        Some(s) => Ok(DayCount { year: s.year as i64, month: s.month as i64, day: s.day as i64 }),
        None => Err(CalendarError::MissingMarker),
    }
}

proof fn lemma_step_one_day(cal: Calendar, months: Seq<i64>, years: Seq<i64>, s: WalkState)
    requires
        s.day >= 0,
        s.month >= 0,
    ensures
        day_step(cal, months, years, s) matches Some(n) ==> n.t == s.t + DAY && earlier(s, n)
            && n.months_passed >= s.months_passed && n.years_passed >= s.years_passed
            && n.day <= s.day + 1 && n.month <= s.month + 1 && n.year <= s.year + 1
            && n.day >= 0 && n.month >= 0 && n.year >= s.year,
{
}

/// Counts the days, months and years from the midnight `zero` that begins
/// an epoch to the day whose midnight is `midnight`, stepping one mean solar
/// day at a time. `months` are the instants that begin months, in order,
/// the first of them the first after `zero`; `years` likewise the December
/// solstices, read in the lunisolar calendar only.
pub fn count_days(cal: Calendar, zero: i64, midnight: i64, months: &Vec<i64>, years: &Vec<i64>) -> (r:
    Result<DayCount, CalendarError>)
    ensures
        r == spec_count_days(cal, zero as int, midnight as int, months@, years@),
        r matches Ok(c) ==> c.wf(),
        r matches Ok(c) ==> (cal == Calendar::Solar ==> c.month <= 3),
{
    let mut day: i128 = 0;
    let mut month: i128 = 0;
    let mut year: i128 = 0;
    let mut t: i128 = zero as i128;
    let mut mi: usize = 0;
    let mut yi: usize = 0;
    let mut steps: i128 = 0;
    let target: i128 = midnight as i128 - SLACK as i128;
    while t < target
        invariant
            target == midnight - SLACK,
            t == zero + steps * DAY,
            steps == 0 || t <= midnight - SLACK + DAY,
            0 <= day <= steps,
            0 <= month <= steps,
            0 <= year <= steps,
            cal == Calendar::Solar ==> month <= 3,
            0 <= steps,
            mi <= months@.len(),
            yi <= years@.len(),
            walk(cal, months@, years@, midnight as int, walk_start(zero as int)) == walk(
                cal,
                months@,
                years@,
                midnight as int,
                WalkState {
                    day: day as int,
                    month: month as int,
                    year: year as int,
                    t: t as int,
                    months_passed: mi as int,
                    years_passed: yi as int,
                },
            ),
        decreases midnight + DAY - t,
    {
        let ghost cur = WalkState {
            day: day as int,
            month: month as int,
            year: year as int,
            t: t as int,
            months_passed: mi as int,
            years_passed: yi as int,
        };
        let ghost next = day_step(cal, months@, years@, cur);
        proof {
            lemma_step_one_day(cal, months@, years@, cur);
        }
        t = t + DAY as i128;
        steps = steps + 1;
        if mi >= months.len() {
            return Err(CalendarError::MissingMarker);
        }
        if (months[mi] as i128) < t + DAY as i128 {
            match cal {
                Calendar::Solar => {
                    if month + 1 == 4 {
                        day = 0;
                        month = 0;
                        year = year + 1;
                    } else {
                        day = 0;
                        month = month + 1;
                    }
                    mi = mi + 1;
                },
                Calendar::Lunisolar => {
                    if yi >= years.len() {
                        return Err(CalendarError::MissingMarker);
                    }
                    if (years[yi] as i128) < t + DAY as i128 {
                        day = 0;
                        month = 0;
                        year = year + 1;
                        yi = yi + 1;
                    } else {
                        day = 0;
                        month = month + 1;
                    }
                    mi = mi + 1;
                },
            }
        } else {
            day = day + 1;
        }
        proof {
            assert(next == Some(
                WalkState {
                    day: day as int,
                    month: month as int,
                    year: year as int,
                    t: t as int,
                    months_passed: mi as int,
                    years_passed: yi as int,
                },
            ));
        }
    }
    proof {
        assert(steps * DAY <= (i64::MAX as int) - (i64::MIN as int) + DAY);
        assert(steps <= COUNT_LIMIT);
    }
    Ok(DayCount { year: year as i64, month: month as i64, day: day as i64 })
}

/// A walk never goes back: where it ends is not earlier than where it
/// starts, and its counters stay non-negative.
proof fn lemma_walk_not_before(cal: Calendar, months: Seq<i64>, years: Seq<i64>, midnight: int, s: WalkState)
    requires
        s.day >= 0,
        s.month >= 0,
    ensures
        walk(cal, months, years, midnight, s) matches Some(e) ==> not_later(s, e) && e.day >= 0
            && e.month >= 0,
    decreases
            if s.t < midnight {
                midnight - s.t
            } else {
                0
            },
{
    if s.t < midnight - SLACK {
        lemma_step_one_day(cal, months, years, s);
        if let Some(n) = day_step(cal, months, years, s) {
            lemma_walk_not_before(cal, months, years, midnight, n);
        }
    }
}

proof fn lemma_walk_monotone_from(
    cal: Calendar,
    months: Seq<i64>,
    years: Seq<i64>,
    m1: int,
    m2: int,
    s: WalkState,
)
    requires
        m1 <= m2,
        s.day >= 0,
        s.month >= 0,
    ensures
        walk(cal, months, years, m1, s) matches Some(a) ==> walk(cal, months, years, m2, s) matches Some(b)
            ==> not_later(a, b),
    decreases
            if s.t < m1 {
                m1 - s.t
            } else {
                0
            },
{
    if s.t >= m1 - SLACK {
        lemma_walk_not_before(cal, months, years, m2, s);
    } else {
        lemma_step_one_day(cal, months, years, s);
        if let Some(n) = day_step(cal, months, years, s) {
            lemma_walk_monotone_from(cal, months, years, m1, m2, n);
        }
    }
}

/// The counters grow with time: for the same epoch and markers, a later
/// midnight never gives an earlier year, month and day.
pub proof fn lemma_walk_monotone(
    cal: Calendar,
    months: Seq<i64>,
    years: Seq<i64>,
    zero: int,
    m1: int,
    m2: int,
)
    requires
        m1 <= m2,
    ensures
        walk(cal, months, years, m1, walk_start(zero)) matches Some(a) ==> walk(
            cal,
            months,
            years,
            m2,
            walk_start(zero),
        ) matches Some(b) ==> not_later(a, b),
{
    lemma_walk_monotone_from(cal, months, years, m1, m2, walk_start(zero));
}

proof fn lemma_next_midnight_from(
    cal: Calendar,
    months: Seq<i64>,
    years: Seq<i64>,
    midnight: int,
    s: WalkState,
)
    requires
        s.t < midnight - SLACK + DAY,
    ensures
        walk(cal, months, years, midnight, s) matches Some(a) ==> walk(
            cal,
            months,
            years,
            midnight + DAY,
            s,
        ) == day_step(cal, months, years, a),
    decreases
            if s.t < midnight {
                midnight - s.t
            } else {
                0
            },
{
    if s.t >= midnight - SLACK {
        if let Some(n) = day_step(cal, months, years, s) {
            assert(n.t == s.t + DAY);
            assert(walk(cal, months, years, midnight + DAY, n) == Some(n));
        }
    } else {
        if let Some(n) = day_step(cal, months, years, s) {
            lemma_next_midnight_from(cal, months, years, midnight, n);
        }
    }
}

/// No day is counted twice: where the epoch precedes the day, the midnight
/// one day later ends exactly one simulated day further on, and that day is
/// a strictly later date, whether it is the next day of the month, the first
/// day of the next month, or the first day of the next year.
pub proof fn lemma_next_midnight(
    cal: Calendar,
    months: Seq<i64>,
    years: Seq<i64>,
    zero: int,
    midnight: int,
)
    requires
        zero <= midnight - SLACK,
    ensures
        walk(cal, months, years, midnight, walk_start(zero)) matches Some(a) ==> {
            &&& walk(cal, months, years, midnight + DAY, walk_start(zero)) == day_step(
                cal,
                months,
                years,
                a,
            )
            &&& day_step(cal, months, years, a) matches Some(b) ==> earlier(a, b)
        },
{
    lemma_next_midnight_from(cal, months, years, midnight, walk_start(zero));
    lemma_walk_not_before(cal, months, years, midnight, walk_start(zero));
    if let Some(a) = walk(cal, months, years, midnight, walk_start(zero)) {
        lemma_step_one_day(cal, months, years, a);
    }
}

/// The epoch that a format counts years from: 1970 where it holds `%u`,
/// 1900 otherwise.
pub open spec fn spec_format_epoch(format: Seq<char>) -> Epoch {
    if has_token(format, 'u') {
        Epoch::Unix
    } else {
        Epoch::Gregorian
    }
}

/// The calendar that a format asks for: solar where it holds `%s`,
/// lunisolar otherwise.
pub open spec fn spec_format_calendar(format: Seq<char>) -> Calendar {
    if has_token(format, 's') {
        Calendar::Solar
    } else {
        Calendar::Lunisolar
    }
}

pub fn format_epoch(format: &str) -> (r: Epoch)
    ensures
        r == spec_format_epoch(format@),
{
    if contains_token(&chars_of(format), 'u') {
        Epoch::Unix
    } else {
        Epoch::Gregorian
    }
}

pub fn format_calendar(format: &str) -> (r: Calendar)
    ensures
        r == spec_format_calendar(format@),
{
    if contains_token(&chars_of(format), 's') {
        Calendar::Solar
    } else {
        Calendar::Lunisolar
    }
}

/// The fields of a geodate.
#[derive(Clone, Copy, Debug, PartialEq, Eq, Structural)]
pub struct GeoDate {
    /// The epoch of the walk precedes the start of the year count.
    pub negative: bool,
    /// Years since the start of the count, without sign.
    pub year: i64,
    pub month: i64,
    pub day: i64,
    /// Hundredths of the day elapsed since midnight.
    pub centiday: i64,
    /// Ten-thousandths of the day elapsed, beyond the hundredths.
    pub dimiday: i64,
}

/// The mean Julian year, in seconds.
pub const JULIAN_YEAR: i64 = 31557600;

/// Division that truncates toward zero, as `/` on `i64`.
pub open spec fn div_trunc(a: int, b: int) -> int {
    if a >= 0 {
        a / b
    } else {
        -((-a) / b)
    }
}

/// `a / b` rounded to the nearest integer, halves away from zero, as
/// `f64::round` does.
pub open spec fn round_div(a: int, b: int) -> int {
    if a >= 0 {
        (2 * a + b) / (2 * b)
    } else {
        -((-2 * a + b) / (2 * b))
    }
}

/// Ten-thousandths of a day elapsed from `midnight` to `now`.
pub open spec fn spec_fraction(now: int, midnight: int) -> int {
    div_trunc(10000 * (now - midnight), DAY as int)
}

pub open spec fn spec_compose(c: DayCount, zero: int, epoch_zero: int, now: int, midnight: int) -> GeoDate {
    let y = c.year + round_div(zero - epoch_zero, JULIAN_YEAR as int);
    let e = spec_fraction(now, midnight);
    GeoDate {
        negative: zero < epoch_zero,
        year: (if zero < epoch_zero && y < 0 {
            -y
        } else {
            y
        }) as i64,
        month: c.month,
        day: c.day,
        centiday: div_trunc(e, 100) as i64,
        dimiday: rem_trunc(e, 100) as i64,
    }
}

/// Puts a geodate together: the years counted from the walk's epoch
/// `zero` are shifted to count from `epoch_zero` (by whole mean Julian
/// years, rounded), a date before `epoch_zero` is marked negative, and the
/// time elapsed since `midnight` is split into hundredths and
/// ten-thousandths of the day.
pub fn compose(count: DayCount, zero: i64, epoch_zero: i64, now: i64, midnight: i64) -> (r: GeoDate)
    requires
        count.wf(),
    ensures
        r == spec_compose(count, zero as int, epoch_zero as int, now as int, midnight as int),
        midnight <= now < midnight + DAY ==> 0 <= r.centiday < 100 && 0 <= r.dimiday < 100,
        now == midnight ==> r.centiday == 0 && r.dimiday == 0,
{
    let a: i128 = zero as i128 - epoch_zero as i128;
    let q: i128 = JULIAN_YEAR as i128;
    let shift: i128 = if a >= 0 {
        (2 * a + q) / (2 * q)
    } else {
        -((-2 * a + q) / (2 * q))
    };
    let y: i128 = count.year as i128 + shift;
    let year: i128 = if zero < epoch_zero && y < 0 {
        -y
    } else {
        y
    };
    let x: i128 = 10000 * (now as i128 - midnight as i128);
    let e: i128 = if x >= 0 {
        x / (DAY as i128)
    } else {
        -((-x) / (DAY as i128))
    };
    let c: i128 = if e >= 0 {
        e / 100
    } else {
        -((-e) / 100)
    };
    let b: i128 = if e >= 0 {
        e % 100
    } else {
        -((-e) % 100)
    };
    GeoDate {
        negative: zero < epoch_zero,
        year: year as i64,
        month: count.month,
        day: count.day,
        centiday: c as i64,
        dimiday: b as i64,
    }
}

/// The text that the token `%t` stands for, if `t` names a field.
pub open spec fn token_text(t: char, g: GeoDate, now: i64) -> Option<Seq<char>> {
    if t == 'h' {
        Some(padded(div_trunc(g.year as int, 100)))
    } else if t == 'y' || t == 'u' {
        Some(padded(rem_trunc(g.year as int, 100)))
    } else if t == 'm' || t == 's' {
        Some(padded(g.month as int))
    } else if t == 'd' {
        Some(padded(g.day as int))
    } else if t == 'c' {
        Some(padded(g.centiday as int))
    } else if t == 'b' {
        Some(padded(g.dimiday as int))
    } else if t == 'x' {
        Some(signed_decimal(now as int))
    } else {
        None
    }
}

/// `s` with each token replaced by its text; other characters, unknown
/// tokens included, stay as they are.
pub open spec fn substitute(s: Seq<char>, g: GeoDate, now: i64) -> Seq<char>
    decreases s.len(),
{
    if s.len() == 0 {
        s
    } else if s.len() >= 2 && s[0] == '%' && token_text(s[1], g, now) is Some {
        token_text(s[1], g, now).unwrap() + substitute(s.skip(2), g, now)
    } else {
        seq![s[0]] + substitute(s.skip(1), g, now)
    }
}

/// A geodate written with `format`: a leading `-` for a negative date,
/// then the format with its tokens replaced.
pub open spec fn spec_render(format: Seq<char>, g: GeoDate, now: i64) -> Seq<char> {
    (if g.negative {
        seq!['-']
    } else {
        Seq::<char>::empty()
    }) + substitute(format, g, now)
}

fn push_token(out: &mut String, t: char, g: &GeoDate, now: i64) -> (found: bool)
    ensures
        found == token_text(t, *g, now) is Some,
        found ==> final(out)@ == old(out)@ + token_text(t, *g, now).unwrap(),
        !found ==> final(out)@ == old(out)@,
{
    if t == 'h' {
        let h: i64 = if g.year >= 0 {
            g.year / 100
        } else {
            -((-(g.year as i128)) / 100) as i64
        };
        push_padded(out, h);
    } else if t == 'y' || t == 'u' {
        let y: i64 = if g.year >= 0 {
            g.year % 100
        } else {
            -((-(g.year as i128)) % 100) as i64
        };
        push_padded(out, y);
    } else if t == 'm' || t == 's' {
        push_padded(out, g.month);
    } else if t == 'd' {
        push_padded(out, g.day);
    } else if t == 'c' {
        push_padded(out, g.centiday);
    } else if t == 'b' {
        push_padded(out, g.dimiday);
    } else if t == 'x' {
        push_signed(out, now);
    } else {
        return false;
    }
    true
}

/// Writes a geodate with `format`: `%h` the century, `%y` and `%u` the
/// year of the century, `%m` and `%s` the month, `%d` the day, `%c` the
/// hundredths of the day, `%b` the ten-thousandths beyond them, each on at
/// least two digits; `%x` the timestamp `now`.
pub fn render(format: &str, g: &GeoDate, now: i64) -> (r: String)
    ensures
        r@ == spec_render(format@, *g, now),
{
    let f = chars_of(format);
    let mut out = String::new();
    if g.negative {
        push_char(&mut out, '-');
    }
    let ghost prefix = out@;
    proof {
        assert(f@.skip(0) =~= f@);
    }
    let n = f.len();
    let mut i: usize = 0;
    while i < n
        invariant
            i <= n,
            n == f@.len(),
            out@ + substitute(f@.skip(i as int), *g, now) == spec_render(format@, *g, now),
            f@ == format@,
        decreases n - i,
    {
        let c = f[i];
        let ghost rest = f@.skip(i as int);
        proof {
            assert(rest[0] == c);
        }
        if c == '%' && i + 1 < n {
            let ghost before = out@;
            let found = push_token(&mut out, f[i + 1], g, now);
            if found {
                proof {
                    assert(rest[1] == f@[i + 1]);
                    assert(rest.skip(2) =~= f@.skip(i + 2));
                    assert(out@ + substitute(f@.skip(i + 2), *g, now) =~= before + substitute(rest, *g, now));
                }
                i = i + 2;
                continue;
            }
        }
        let ghost before = out@;
        push_char(&mut out, c);
        proof {
            assert(rest.skip(1) =~= f@.skip(i + 1));
            if c == '%' && i + 1 < n {
                assert(rest[1] == f@[i + 1]);
            }
            assert(out@ + substitute(f@.skip(i + 1), *g, now) =~= before + substitute(rest, *g, now));
        }
        i = i + 1;
    }
    proof {
        assert(f@.skip(n as int) =~= Seq::<char>::empty());
        assert(out@ =~= out@ + substitute(f@.skip(n as int), *g, now));
    }
    out
}

/// Within a day, the fraction of the day grows with time: for the same
/// midnight, a later instant never has fewer ten-thousandths of the day, and
/// before the next midnight there are fewer than ten thousand of them.
pub proof fn lemma_fraction_monotone(midnight: int, now1: int, now2: int)
    requires
        midnight <= now1 <= now2,
    ensures
        0 <= spec_fraction(now1, midnight) <= spec_fraction(now2, midnight),
        now2 < midnight + DAY ==> spec_fraction(now2, midnight) < 10000,
{
    vstd::arithmetic::div_mod::lemma_div_is_ordered(
        10000 * (now1 - midnight),
        10000 * (now2 - midnight),
        DAY as int,
    );
    vstd::arithmetic::div_mod::lemma_div_pos_is_pos(10000 * (now1 - midnight), DAY as int);
}

/// The format `%u:%m:%d:%c:%b`.
pub open spec fn unix_format() -> Seq<char> {
    seq!['%', 'u', ':', '%', 'm', ':', '%', 'd', ':', '%', 'c', ':', '%', 'b']
}

/// The fields of a date read as one number, the year of the century first.
pub open spec fn date_key(g: GeoDate) -> int {
    (g.year % 100) * 100000000 + g.month * 1000000 + g.day * 10000 + g.centiday * 100 + g.dimiday
}

pub open spec fn small_fields(g: GeoDate) -> bool {
    0 <= g.year && 0 <= g.month < 100 && 0 <= g.day < 100 && 0 <= g.centiday < 100 && 0 <= g.dimiday
        < 100
}

proof fn lemma_digit_text(v: int)
    requires
        0 <= v < 100,
    ensures
        padded(v).len() == 2,
        all_digits(padded(v)),
        digits_value(padded(v)) == v,
        no_colon(padded(v)),
{
    lemma_padded_two_digits(v);
    assert forall|i: int| 0 <= i < padded(v).len() implies #[trigger] padded(v)[i] != ':' by {
        assert(is_digit(padded(v)[i]));
    }
}

proof fn lemma_concat_digits(a: Seq<char>, b: Seq<char>)
    requires
        all_digits(a),
        all_digits(b),
    ensures
        all_digits(a + b),
{
    assert forall|i: int| 0 <= i < (a + b).len() implies is_digit(#[trigger] (a + b)[i]) by {
        if i < a.len() {
            assert((a + b)[i] == a[i]);
        } else {
            assert((a + b)[i] == b[i - a.len()]);
        }
    }
}

/// A date written as `%u:%m:%d:%c:%b` reads back, through `date_index`, as
/// its fields read as one number: where the date is not negative and its
/// month, day and parts of the day are below a hundred.
pub proof fn lemma_index_of_rendered(g: GeoDate, now: i64)
    requires
        !g.negative,
        small_fields(g),
    ensures
        spec_date_index(spec_render(unix_format(), g, now)) == Ok::<i64, crate::reverse::DateError>(
            date_key(g) as i64,
        ),
{
    let py = padded(g.year as int % 100);
    let pm = padded(g.month as int);
    let pd = padded(g.day as int);
    let pc = padded(g.centiday as int);
    let pb = padded(g.dimiday as int);
    lemma_digit_text(g.year as int % 100);
    lemma_digit_text(g.month as int);
    lemma_digit_text(g.day as int);
    lemma_digit_text(g.centiday as int);
    lemma_digit_text(g.dimiday as int);
    assert(rem_trunc(g.year as int, 100) == g.year % 100);

    // the format with its tokens replaced
    let c = seq![':'];
    let s0 = unix_format();
    let s1 = s0.skip(2);
    let s2 = s1.skip(1);
    let s3 = s2.skip(2);
    let s4 = s3.skip(1);
    let s5 = s4.skip(2);
    let s6 = s5.skip(1);
    let s7 = s6.skip(2);
    let s8 = s7.skip(1);
    let s9 = s8.skip(2);
    assert(s1 =~= seq![':', '%', 'm', ':', '%', 'd', ':', '%', 'c', ':', '%', 'b']);
    assert(s2 =~= seq!['%', 'm', ':', '%', 'd', ':', '%', 'c', ':', '%', 'b']);
    assert(s3 =~= seq![':', '%', 'd', ':', '%', 'c', ':', '%', 'b']);
    assert(s4 =~= seq!['%', 'd', ':', '%', 'c', ':', '%', 'b']);
    assert(s5 =~= seq![':', '%', 'c', ':', '%', 'b']);
    assert(s6 =~= seq!['%', 'c', ':', '%', 'b']);
    assert(s7 =~= seq![':', '%', 'b']);
    assert(s8 =~= seq!['%', 'b']);
    assert(s9 =~= Seq::<char>::empty());
    assert(substitute(s9, g, now) == s9);
    assert(substitute(s8, g, now) == pb + substitute(s9, g, now));
    assert(substitute(s7, g, now) == c + substitute(s8, g, now));
    assert(substitute(s6, g, now) == pc + substitute(s7, g, now));
    assert(substitute(s5, g, now) == c + substitute(s6, g, now));
    assert(substitute(s4, g, now) == pd + substitute(s5, g, now));
    assert(substitute(s3, g, now) == c + substitute(s4, g, now));
    assert(substitute(s2, g, now) == pm + substitute(s3, g, now));
    assert(substitute(s1, g, now) == c + substitute(s2, g, now));
    assert(substitute(s0, g, now) == py + substitute(s1, g, now));
    let r1 = py;
    let r2 = r1 + c;
    let r3 = r2 + pm;
    let r4 = r3 + c;
    let r5 = r4 + pd;
    let r6 = r5 + c;
    let r7 = r6 + pc;
    let r8 = r7 + c;
    let r9 = r8 + pb;
    let r = spec_render(unix_format(), g, now);
    assert(r =~= r9);

    // its fields
    let e = Seq::<char>::empty();
    assert(fields(e) == seq![e]);
    lemma_fields_extend(e, py);
    assert(e + py =~= py);
    assert(fields(r1) =~= seq![py]);
    lemma_fields_colon(r1);
    assert(r1.push(':') =~= r2);
    assert(fields(r2) =~= seq![py, e]);
    lemma_fields_extend(r2, pm);
    assert(fields(r3) =~= seq![py, pm]);
    lemma_fields_colon(r3);
    assert(r3.push(':') =~= r4);
    assert(fields(r4) =~= seq![py, pm, e]);
    lemma_fields_extend(r4, pd);
    assert(fields(r5) =~= seq![py, pm, pd]);
    lemma_fields_colon(r5);
    assert(r5.push(':') =~= r6);
    assert(fields(r6) =~= seq![py, pm, pd, e]);
    lemma_fields_extend(r6, pc);
    assert(fields(r7) =~= seq![py, pm, pd, pc]);
    lemma_fields_colon(r7);
    assert(r7.push(':') =~= r8);
    assert(fields(r8) =~= seq![py, pm, pd, pc, e]);
    lemma_fields_extend(r8, pb);
    assert(fields(r9) =~= seq![py, pm, pd, pc, pb]);

    // its digits
    assert(strip_colons(c) == e) by {
        assert(c.drop_last() =~= e);
        assert(c.last() == ':');
        assert(strip_colons(e) == e);
    }
    lemma_strip_colons_none(py);
    lemma_strip_colons_none(pm);
    lemma_strip_colons_none(pd);
    lemma_strip_colons_none(pc);
    lemma_strip_colons_none(pb);
    lemma_strip_colons_concat(r1, c);
    lemma_strip_colons_concat(r2, pm);
    lemma_strip_colons_concat(r3, c);
    lemma_strip_colons_concat(r4, pd);
    lemma_strip_colons_concat(r5, c);
    lemma_strip_colons_concat(r6, pc);
    lemma_strip_colons_concat(r7, c);
    lemma_strip_colons_concat(r8, pb);
    let d = py + pm + pd + pc + pb;
    assert(strip_colons(r9) =~= d);
    lemma_concat_digits(py, pm);
    lemma_concat_digits(py + pm, pd);
    lemma_concat_digits(py + pm + pd, pc);
    lemma_concat_digits(py + pm + pd + pc, pb);
    assert(pow10(2) == 100) by {
        assert(pow10(0) == 1);
        assert(pow10(1) == 10);
    }
    lemma_digits_value_concat(py, pm);
    lemma_digits_value_concat(py + pm, pd);
    lemma_digits_value_concat(py + pm + pd, pc);
    lemma_digits_value_concat(py + pm + pd + pc, pb);
    assert(digits_value(d) == date_key(g));
    assert(is_digit(d[0]));
    assert(crate::text::int_of(d) == Some(date_key(g)));
    assert(crate::text::int_of(py) == Some(g.year as int % 100)) by {
        assert(is_digit(py[0]));
    }
}

/// Later fields, larger key: the key orders dates as their fields do, year
/// of the century first.
pub proof fn lemma_key_order(a: GeoDate, b: GeoDate)
    requires
        small_fields(a),
        small_fields(b),
        a.year % 100 < b.year % 100 || (a.year % 100 == b.year % 100 && (a.month < b.month || (a.month
            == b.month && (a.day < b.day || (a.day == b.day && (a.centiday < b.centiday || (a.centiday
            == b.centiday && a.dimiday <= b.dimiday))))))),
    ensures
        date_key(a) <= date_key(b),
{
}

/// The counters of a walk's end, as `count_days` gives them.
pub open spec fn count_of(s: WalkState) -> DayCount {
    DayCount { year: s.year as i64, month: s.month as i64, day: s.day as i64 }
}

/// The three ways a day can follow another: the next day of the month, the
/// first day of the next month, or the first day of the next year.
pub open spec fn next_day_of(a: WalkState, b: WalkState) -> bool {
    (b.year == a.year && b.month == a.month && b.day == a.day + 1) || (b.year == a.year && b.month
        == a.month + 1 && b.day == 0) || (b.year == a.year + 1 && b.month == 0 && b.day == 0)
}

/// Across a midnight: the last second before it is the last ten-thousandth
/// of its day (`99` hundredths, `99` beyond them); the midnight itself opens
/// the next day at `00` and `00`; and that day follows the previous one in
/// exactly one of the three ways, never repeating it. This holds where the
/// epoch precedes the day, whatever the markers.
pub proof fn lemma_day_boundary(
    cal: Calendar,
    months: Seq<i64>,
    years: Seq<i64>,
    zero: int,
    epoch_zero: int,
    midnight: int,
)
    requires
        zero <= midnight - SLACK,
    ensures
        walk(cal, months, years, midnight, walk_start(zero)) matches Some(a) ==> walk(
            cal,
            months,
            years,
            midnight + DAY,
            walk_start(zero),
        ) matches Some(b) ==> {
            &&& next_day_of(a, b)
            &&& earlier(a, b)
            &&& spec_compose(count_of(a), zero, epoch_zero, midnight + DAY - 1, midnight).centiday == 99
            &&& spec_compose(count_of(a), zero, epoch_zero, midnight + DAY - 1, midnight).dimiday == 99
            &&& spec_compose(count_of(b), zero, epoch_zero, midnight + DAY, midnight + DAY).centiday == 0
            &&& spec_compose(count_of(b), zero, epoch_zero, midnight + DAY, midnight + DAY).dimiday == 0
        },
{
    lemma_next_midnight(cal, months, years, zero, midnight);
    assert(spec_fraction(midnight + DAY - 1, midnight) == 9999);
    assert(spec_fraction(midnight + DAY, midnight + DAY) == 0);
}

} // verus!
