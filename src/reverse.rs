//! Reading a geodate string back: its fields, its year, and an integer index
//! that orders dates; and the bisection that turns a date into a timestamp.
use vstd::prelude::*;

use crate::text::{chars_of, contains_token, has_token, i64_of, parse_i64};

verus! {

/// Why a date string could not be read.
#[derive(Clone, Copy, Debug, PartialEq, Eq, Structural)]
pub enum DateError {
    /// The string has neither five nor six fields separated by `:`.
    WrongFormat,
    /// A field, or the fields read together, is not a decimal number that
    /// fits in an `i64`.
    NotANumber,
    /// The index of the date does not fit in an `i64`.
    OutOfRange,
}

/// The fields of `s` separated by `:`, as `str::split(":")` gives them: one
/// more than the colons, empty ones included.
pub open spec fn fields(s: Seq<char>) -> Seq<Seq<char>>
    decreases s.len(),
{
    if s.len() == 0 {
        seq![Seq::<char>::empty()]
    } else {
        let f = fields(s.drop_last());
        if s.last() == ':' {
            f.push(Seq::<char>::empty())
        } else {
            f.update(f.len() - 1, f.last().push(s.last()))
        }
    }
}

/// `s` without its colons.
pub open spec fn strip_colons(s: Seq<char>) -> Seq<char>
    decreases s.len(),
{
    if s.len() == 0 {
        s
    } else if s.last() == ':' {
        strip_colons(s.drop_last())
    } else {
        strip_colons(s.drop_last()).push(s.last())
    }
}

/// The text that holds the year: the century and the year of the century
/// read together when there are six fields, the first field when there are
/// five.
pub open spec fn year_text(p: Seq<Seq<char>>) -> Seq<char> {
    if p.len() == 6 {
        p[0] + p[1]
    } else {
        p[0]
    }
}

pub open spec fn spec_date_year(s: Seq<char>) -> Result<i64, DateError> {
    let p = fields(s);
    if p.len() != 5 && p.len() != 6 {
        Err(DateError::WrongFormat)
    } else {
        match i64_of(year_text(p)) {
            Some(y) => Ok(y),
            None => Err(DateError::NotANumber),
        }
    }
}

/// The remainder of a division that truncates toward zero, as `%` on `i64`.
pub open spec fn rem_trunc(a: int, b: int) -> int {
    if a >= 0 {
        a % b
    } else {
        -((-a) % b)
    }
}

pub const DATE_SCALE: i64 = 100000000;

/// The index of a date with digits `i` and year `y`. A date before the
/// reference is written with a leading `-`, and its digits after the year
/// count forward in time; so those digits are added back to the year scaled.
pub open spec fn index_of(y: int, i: int) -> int {
    if i >= 0 {
        i
    } else {
        y * DATE_SCALE - rem_trunc(i, DATE_SCALE as int)
    }
}

pub open spec fn spec_date_index(s: Seq<char>) -> Result<i64, DateError> {
    match spec_date_year(s) {
        Err(e) => Err(e),
        Ok(y) => match i64_of(strip_colons(s)) {
            None => Err(DateError::NotANumber),
            Some(i) => if i64::MIN <= index_of(y as int, i as int) <= i64::MAX {
                Ok(index_of(y as int, i as int) as i64)
            } else {
                Err(DateError::OutOfRange)
            },
        },
    }
}

pub open spec fn views(p: Seq<Vec<char>>) -> Seq<Seq<char>> {
    p.map_values(|v: Vec<char>| v@)
}

/// Splits `s` at each `:`.
pub fn split_fields(s: &Vec<char>) -> (r: Vec<Vec<char>>)
    ensures
        views(r@) == fields(s@),
{
    let mut parts: Vec<Vec<char>> = Vec::new();
    let mut cur: Vec<char> = Vec::new();
    let mut i: usize = 0;
    while i < s.len()
        invariant
            i <= s@.len(),
            views(parts@).push(cur@) == fields(s@.take(i as int)),
        decreases s@.len() - i,
    {
        let c = s[i];
        proof {
            assert(s@.take(i + 1).drop_last() =~= s@.take(i as int));
            assert(s@.take(i + 1).last() == c);
        }
        if c == ':' {
            let ghost old_parts = parts@;
            let ghost old_cur = cur@;
            parts.push(cur);
            cur = Vec::new();
            proof {
                assert(views(parts@) =~= views(old_parts).push(old_cur));
                assert(views(parts@).push(cur@) =~= fields(s@.take(i + 1)));
            }
        } else {
            let ghost old_cur = cur@;
            cur.push(c);
            proof {
                assert(views(parts@).push(cur@) =~= views(parts@).push(old_cur).update(
                    views(parts@).len() as int,
                    old_cur.push(c),
                ));
            }
        }
        i = i + 1;
    }
    proof {
        assert(s@.take(s@.len() as int) =~= s@);
    }
    let ghost before = parts@;
    parts.push(cur);
    proof {
        assert(views(parts@) =~= views(before).push(cur@));
    }
    parts
}

/// `s` without its colons.
pub fn without_colons(s: &Vec<char>) -> (r: Vec<char>)
    ensures
        r@ == strip_colons(s@),
{
    let mut r: Vec<char> = Vec::new();
    let mut i: usize = 0;
    while i < s.len()
        invariant
            i <= s@.len(),
            r@ == strip_colons(s@.take(i as int)),
        decreases s@.len() - i,
    {
        let c = s[i];
        proof {
            assert(s@.take(i + 1).drop_last() =~= s@.take(i as int));
            assert(s@.take(i + 1).last() == c);
        }
        if c != ':' {
            r.push(c);
        }
        i = i + 1;
    }
    proof {
        assert(s@.take(s@.len() as int) =~= s@);
    }
    r
}

fn year_of_chars(s: &Vec<char>) -> (r: Result<i64, DateError>)
    ensures
        r == spec_date_year(s@),
{
    let parts = split_fields(s);
    let n = parts.len();
    proof {
        assert(views(parts@).len() == n);
    }
    if n != 5 && n != 6 {
        return Err(DateError::WrongFormat);
    }
    let mut text: Vec<char> = parts[0].clone();
    proof {
        assert(views(parts@)[0] == parts@[0]@);
    }
    if n == 6 {
        let mut second: Vec<char> = parts[1].clone();
        proof {
            assert(views(parts@)[1] == parts@[1]@);
        }
        text.append(&mut second);
    }
    proof {
        assert(text@ =~= year_text(fields(s@)));
    }
    match parse_i64(&text) {
        Some(y) => Ok(y),
        None => Err(DateError::NotANumber),
    }
}

/// Extracts the year of a geodate string: `%h` and `%y` read together when
/// the date has six fields, the first field when it has five.
pub fn date_year(date: &str) -> (r: Result<i64, DateError>)
    ensures
        r == spec_date_year(date@),
{
    let s = chars_of(date);
    year_of_chars(&s)
}

/// Transforms a geodate string into an integer that orders dates: its digits
/// read as one number, with dates before the reference turned so that later
/// dates get larger indexes.
pub fn date_index(date: &str) -> (r: Result<i64, DateError>)
    ensures
        r == spec_date_index(date@),
{
    let s = chars_of(date);
    let year = match year_of_chars(&s) {
        Ok(y) => y,
        Err(e) => return Err(e),
    };
    let digits = without_colons(&s);
    let index = match parse_i64(&digits) {
        Some(i) => i,
        None => return Err(DateError::NotANumber),
    };
    if index >= 0 {
        return Ok(index);
    }
    let magnitude: u64 = if index == i64::MIN {
        9223372036854775808
    } else {
        (-index) as u64
    };
    let rem = (magnitude % (DATE_SCALE as u64)) as i128;
    let v: i128 = year as i128 * (DATE_SCALE as i128) + rem;
    proof {
        assert(rem_trunc(index as int, DATE_SCALE as int) == -rem);
    }
    if v < i64::MIN as i128 || v > i64::MAX as i128 {
        Err(DateError::OutOfRange)
    } else {
        Ok(v as i64)
    }
}

/// A closed range of timestamps that holds the instant sought.
#[derive(Clone, Copy, Debug, PartialEq, Eq, Structural)]
pub struct Bracket {
    pub min: i64,
    pub max: i64,
}

pub const YEAR_OF_DAYS: i64 = 365 * 86400;

/// 1900-01-01T00:03:40Z, where years counted from 1900 begin.
pub const GREGORIAN_START: i64 = -2208988580;

/// 1970-01-07T00:06:20Z, where years counted from 1970 begin.
pub const UNIX_START: i64 = 518780;

/// The first bracket: two years of 365 days on each side of the year, the
/// years counted from 1970 or, with `%y`, from 1900; and, where the start of
/// the count falls inside, only the side of it that the date's sign names.
pub open spec fn spec_bracket(gregorian: bool, negative: bool, y: int) -> (int, int) {
    let shift: int = if gregorian {
        70 * YEAR_OF_DAYS
    } else {
        0
    };
    let min = (y - 2) * YEAR_OF_DAYS - shift;
    let max = (y + 2) * YEAR_OF_DAYS - shift;
    let start: int = if gregorian {
        GREGORIAN_START as int
    } else {
        UNIX_START as int
    };
    if min < start && start < max {
        if negative {
            (min, start - 9)
        } else {
            (start, max)
        }
    } else {
        (min, max)
    }
}

pub open spec fn spec_search_start(format: Seq<char>, date: Seq<char>) -> Result<(Bracket, i64), DateError> {
    match spec_date_year(date) {
        Err(e) => Err(e),
        Ok(y) => match spec_date_index(date) {
            Err(e) => Err(e),
            Ok(n) => {
                let b = spec_bracket(has_token(format, 'y'), date.len() > 0 && date[0] == '-', y as int);
                if i64::MIN <= b.0 && b.1 <= i64::MAX {
                    Ok((Bracket { min: b.0 as i64, max: b.1 as i64 }, n))
                } else {
                    Err(DateError::OutOfRange)
                }
            },
        },
    }
}

/// Where the search for `date`, written with `format`, begins: the first
/// bracket and the index to find.
pub fn search_start(format: &str, date: &str) -> (r: Result<(Bracket, i64), DateError>)
    ensures
        r == spec_search_start(format@, date@),
{
    let y = match date_year(date) {
        Ok(y) => y,
        Err(e) => return Err(e),
    };
    let n = match date_index(date) {
        Ok(n) => n,
        Err(e) => return Err(e),
    };
    let f = chars_of(format);
    let d = chars_of(date);
    let gregorian = contains_token(&f, 'y');
    let negative = d.len() > 0 && d[0] == '-';
    let shift: i128 = if gregorian {
        70 * (YEAR_OF_DAYS as i128)
    } else {
        0
    };
    let mut min: i128 = (y as i128 - 2) * (YEAR_OF_DAYS as i128) - shift;
    let mut max: i128 = (y as i128 + 2) * (YEAR_OF_DAYS as i128) - shift;
    let start: i128 = if gregorian {
        GREGORIAN_START as i128
    } else {
        UNIX_START as i128
    };
    if min < start && start < max {
        if negative {
            max = start - 9;
        } else {
            min = start;
        }
    }
    if min < i64::MIN as i128 || max > i64::MAX as i128 {
        return Err(DateError::OutOfRange);
    }
    Ok((Bracket { min: min as i64, max: max as i64 }, n))
}

/// Division by two that truncates toward zero, as `/` on `i64`.
pub open spec fn half_trunc(a: int) -> int {
    if a >= 0 {
        a / 2
    } else {
        -((-a) / 2)
    }
}

pub open spec fn spec_midpoint(b: Bracket) -> int {
    half_trunc(b.min + b.max)
}

/// What one probe of the search decides.
#[derive(Clone, Copy, Debug, PartialEq, Eq, Structural)]
pub enum Probe {
    /// The search ends at this timestamp.
    Done(i64),
    /// The search goes on in this bracket.
    Next(Bracket),
}

pub open spec fn spec_probe(b: Bracket, target: int, found: int) -> Probe {
    let mid = spec_midpoint(b);
    if found == target || mid == b.min || mid == b.max {
        Probe::Done(mid as i64)
    } else if found < target {
        Probe::Next(Bracket { min: mid as i64, max: b.max })
    } else {
        Probe::Next(Bracket { min: b.min, max: mid as i64 })
    }
}

impl Bracket {
    /// The timestamp to probe next.
    pub fn midpoint(&self) -> (r: i64)
        ensures
            r == spec_midpoint(*self),
            self.min <= self.max ==> self.min <= r <= self.max,
            self.max <= self.min ==> self.max <= r <= self.min,
    {
        let s: i128 = self.min as i128 + self.max as i128;
        let h: i128 = if s >= 0 {
            s / 2
        } else {
            -((-s) / 2)
        };
        h as i64
    }

    /// Decides on the index `found` of the date at the midpoint, while looking
    /// for the index `target`.
    pub fn probe(&self, target: i64, found: i64) -> (r: Probe)
        ensures
            r == spec_probe(*self, target as int, found as int),
    {
        let mid = self.midpoint();
        if found == target || mid == self.min || mid == self.max {
            Probe::Done(mid)
        } else if found < target {
            Probe::Next(Bracket { min: mid, max: self.max })
        } else {
            Probe::Next(Bracket { min: self.min, max: mid })
        }
    }
}

pub open spec fn width(b: Bracket) -> int {
    if b.max >= b.min {
        b.max - b.min
    } else {
        b.min - b.max
    }
}

/// Each probe that goes on narrows the bracket, so a search ends.
pub proof fn lemma_probe_narrows(b: Bracket, target: int, found: int)
    ensures
        spec_probe(b, target, found) matches Probe::Next(c) ==> 0 <= width(c) < width(b),
{
}

/// Where the search ends when the index at each timestamp `t` is `f(t)`.
pub open spec fn search_end(f: spec_fn(int) -> int, b: Bracket, target: int) -> int
    decreases width(b),
{
    match spec_probe(b, target, f(spec_midpoint(b))) {
        Probe::Done(r) => r as int,
        Probe::Next(c) => if 0 <= width(c) < width(b) {
            search_end(f, c, target)
        } else {
            spec_midpoint(b)
        },
    }
}

pub open spec fn monotone_on(f: spec_fn(int) -> int, lo: int, hi: int) -> bool {
    forall|a: int, c: int| lo <= a <= c <= hi ==> #[trigger] f(a) <= #[trigger] f(c)
}

/// Bisection finds what it looks for: where the index grows with time over
/// the bracket and some instant in it has the index sought, the search ends
/// on an instant with that index, or within one second of one.
pub proof fn lemma_search_finds(f: spec_fn(int) -> int, b: Bracket, target: int, t: int)
    requires
        b.min <= t <= b.max,
        monotone_on(f, b.min as int, b.max as int),
        f(t) == target,
    ensures
        b.min <= search_end(f, b, target) <= b.max,
        f(search_end(f, b, target)) == target || exists|u: int|
            b.min <= u <= b.max && #[trigger] f(u) == target && -1 <= search_end(f, b, target) - u
                <= 1,
    decreases width(b),
{
    let mid = spec_midpoint(b);
    lemma_probe_narrows(b, target, f(mid));
    match spec_probe(b, target, f(mid)) {
        Probe::Done(r) => {
            if f(mid) != target {
                assert(b.max - b.min <= 1);
            }
        },
        Probe::Next(c) => {
            if f(mid) < target {
                if t < mid {
                    assert(f(t) <= f(mid));
                }
                lemma_search_finds(f, c, target, t);
            } else {
                if t > mid {
                    assert(f(mid) <= f(t));
                }
                lemma_search_finds(f, c, target, t);
            }
        },
    }
}

pub open spec fn no_colon(s: Seq<char>) -> bool {
    forall|i: int| 0 <= i < s.len() ==> #[trigger] s[i] != ':'
}

/// Text without a colon extends the last field.
pub proof fn lemma_fields_extend(a: Seq<char>, b: Seq<char>)
    requires
        no_colon(b),
    ensures
        fields(a + b) == fields(a).update(fields(a).len() - 1, fields(a).last() + b),
        fields(a + b).len() == fields(a).len(),
        fields(a).len() >= 1,
    decreases b.len(),
{
    lemma_fields_nonempty(a);
    if b.len() == 0 {
        assert(a + b =~= a);
        assert(fields(a).last() + b =~= fields(a).last());
        assert(fields(a).update(fields(a).len() - 1, fields(a).last()) =~= fields(a));
    } else {
        assert((a + b).drop_last() =~= a + b.drop_last());
        assert((a + b).last() == b.last());
        assert(b.last() == b[b.len() - 1]);
        lemma_fields_extend(a, b.drop_last());
        let f = fields(a + b.drop_last());
        assert(f.last() =~= fields(a).last() + b.drop_last());
        assert(f.last().push(b.last()) =~= fields(a).last() + b);
        assert(f.update(f.len() - 1, f.last().push(b.last())) =~= fields(a).update(
            fields(a).len() - 1,
            fields(a).last() + b,
        ));
    }
}

proof fn lemma_fields_nonempty(a: Seq<char>)
    ensures
        fields(a).len() >= 1,
    decreases a.len(),
{
    if a.len() > 0 {
        lemma_fields_nonempty(a.drop_last());
    }
}

/// A colon starts a new, empty field.
pub proof fn lemma_fields_colon(a: Seq<char>)
    ensures
        fields(a.push(':')) == fields(a).push(Seq::<char>::empty()),
{
    assert(a.push(':').drop_last() =~= a);
}

/// Stripping colons works piece by piece.
pub proof fn lemma_strip_colons_concat(a: Seq<char>, b: Seq<char>)
    ensures
        strip_colons(a + b) == strip_colons(a) + strip_colons(b),
    decreases b.len(),
{
    if b.len() == 0 {
        assert(a + b =~= a);
        assert(strip_colons(a) + strip_colons(b) =~= strip_colons(a));
    } else {
        assert((a + b).drop_last() =~= a + b.drop_last());
        assert((a + b).last() == b.last());
        lemma_strip_colons_concat(a, b.drop_last());
        if b.last() == ':' {
        } else {
            assert(strip_colons(a) + strip_colons(b) =~= (strip_colons(a) + strip_colons(b.drop_last())).push(
                b.last(),
            ));
        }
    }
}

pub proof fn lemma_strip_colons_none(b: Seq<char>)
    requires
        no_colon(b),
    ensures
        strip_colons(b) == b,
    decreases b.len(),
{
    if b.len() > 0 {
        assert(b.last() == b[b.len() - 1]);
        assert(no_colon(b.drop_last())) by {
            assert forall|i: int| 0 <= i < b.drop_last().len() implies #[trigger] b.drop_last()[i]
                != ':' by {
                assert(b.drop_last()[i] == b[i]);
            }
        }
        lemma_strip_colons_none(b.drop_last());
        assert(b.drop_last().push(b.last()) =~= b);
    }
}

} // verus!
