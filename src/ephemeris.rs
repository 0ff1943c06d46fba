//! The notable events of a day at a place, in chronological order.
use vstd::prelude::*;

verus! {

/// What happens at an instant of the day.
#[derive(Clone, Copy, Debug, PartialEq, Eq, Structural)]
pub enum EventKind {
    /// The instant asked about.
    Current,
    Equinox,
    Solstice,
    NewMoon,
    FirstQuarterMoon,
    FullMoon,
    LastQuarterMoon,
    Moonrise,
    /// A moonrise found by looking at the next calendar day.
    MoonriseNextDay,
    /// A moonrise found by looking at the previous calendar day.
    MoonrisePreviousDay,
    Moonset,
    Sunrise,
    Sunset,
}

/// The kind recorded last for instant `t` in `s`, if any.
pub open spec fn lookup(s: Seq<(i64, EventKind)>, t: i64) -> Option<EventKind>
    decreases s.len(),
{
    if s.len() == 0 {
        None
    } else if s.last().0 == t {
        Some(s.last().1)
    } else {
        lookup(s.drop_last(), t)
    }
}

pub open spec fn strictly_sorted(s: Seq<(i64, EventKind)>) -> bool {
    forall|i: int, j: int| 0 <= i < j < s.len() ==> #[trigger] s[i].0 < #[trigger] s[j].0
}

/// Events ordered by instant, at most one per instant.
pub struct Events {
    entries: Vec<(i64, EventKind)>,
}

proof fn lemma_lookup_found(s: Seq<(i64, EventKind)>, i: int)
    requires
        strictly_sorted(s),
        0 <= i < s.len(),
    ensures
        lookup(s, s[i].0) == Some(s[i].1),
    decreases s.len(),
{
    if i < s.len() - 1 {
        assert(s[i].0 < s[s.len() - 1].0);
        assert(s.drop_last()[i] == s[i]);
        lemma_lookup_found(s.drop_last(), i);
    }
}

proof fn lemma_lookup_missing(s: Seq<(i64, EventKind)>, t: i64)
    requires
        forall|i: int| 0 <= i < s.len() ==> #[trigger] s[i].0 != t,
    ensures
        lookup(s, t) == None::<EventKind>,
    decreases s.len(),
{
    if s.len() > 0 {
        assert(s[s.len() - 1].0 != t);
        assert forall|i: int| 0 <= i < s.drop_last().len() implies #[trigger] s.drop_last()[i].0 != t by {
            assert(s.drop_last()[i] == s[i]);
        }
        lemma_lookup_missing(s.drop_last(), t);
    }
}

/// In a sorted sequence, what `lookup` finds is given by the entries alone.
proof fn lemma_lookup_sorted(s: Seq<(i64, EventKind)>, t: i64)
    requires
        strictly_sorted(s),
    ensures
        lookup(s, t) is Some <==> exists|i: int| 0 <= i < s.len() && #[trigger] s[i].0 == t,
        forall|i: int| 0 <= i < s.len() && #[trigger] s[i].0 == t ==> lookup(s, t) == Some(s[i].1),
{
    assert forall|i: int| 0 <= i < s.len() && #[trigger] s[i].0 == t implies lookup(s, t) == Some(
        s[i].1,
    ) by {
        lemma_lookup_found(s, i);
    }
    if !(exists|i: int| 0 <= i < s.len() && #[trigger] s[i].0 == t) {
        lemma_lookup_missing(s, t);
    }
}

impl Events {
    pub closed spec fn view(&self) -> Seq<(i64, EventKind)> {
        self.entries@
    }

    pub open spec fn wf(&self) -> bool {
        strictly_sorted(self.view())
    }

    pub fn new() -> (r: Events)
        ensures
            r.wf(),
            r.view() == Seq::<(i64, EventKind)>::empty(),
    {
        Events { entries: Vec::new() }
    }

    /// The events, in chronological order.
    pub fn entries(&self) -> (r: &Vec<(i64, EventKind)>)
        ensures
            r@ == self.view(),
    {
        &self.entries
    }

    /// Records `kind` at instant `t`, in place of what was there.
    pub fn insert(&mut self, t: i64, kind: EventKind)
        requires
            old(self).wf(),
        ensures
            final(self).wf(),
            forall|u: i64|
                lookup(final(self).view(), u) == if u == t {
                    Some(kind)
                } else {
                    lookup(old(self).view(), u)
                },
    {
        let ghost before = self.entries@;
        let n = self.entries.len();
        let mut p: usize = 0;
        while p < n && self.entries[p].0 < t
            invariant
                p <= n,
                n == self.entries@.len(),
                self.entries@ == before,
                forall|j: int| 0 <= j < p ==> #[trigger] self.entries@[j].0 < t,
            decreases n - p,
        {
            p = p + 1;
        }
        if p < n && self.entries[p].0 == t {
            self.entries.set(p, (t, kind));
        } else {
            self.entries.insert(p, (t, kind));
        }
        let ghost after = self.entries@;
        proof {
            assert(strictly_sorted(after)) by {
                assert forall|i: int, j: int| 0 <= i < j < after.len() implies #[trigger] after[i].0
                    < #[trigger] after[j].0 by {
                    if after.len() == before.len() {
                        if i != p && j != p {
                            assert(after[i] == before[i] && after[j] == before[j]);
                        } else if i == p {
                            assert(after[j] == before[j]);
                            assert(before[i].0 < before[j].0);
                        } else {
                            assert(after[i] == before[i]);
                            assert(before[i].0 < before[j].0);
                        }
                    } else {
                        if j < p {
                            assert(after[i] == before[i] && after[j] == before[j]);
                        } else if j == p {
                            assert(after[i] == before[i]);
                        } else if i == p {
                            assert(after[j] == before[j - 1]);
                        } else if i < p {
                            assert(after[i] == before[i] && after[j] == before[j - 1]);
                        } else {
                            assert(after[i] == before[i - 1] && after[j] == before[j - 1]);
                            assert(before[i - 1].0 < before[j - 1].0);
                        }
                    }
                }
            }
            assert forall|u: i64|
                lookup(after, u) == if u == t {
                    Some(kind)
                } else {
                    lookup(before, u)
                } by {
                lemma_lookup_sorted(after, u);
                lemma_lookup_sorted(before, u);
                if u == t {
                    assert(after[p as int].0 == t);
                } else if after.len() == before.len() {
                    if exists|i: int| 0 <= i < before.len() && #[trigger] before[i].0 == u {
                        let i = choose|i: int| 0 <= i < before.len() && #[trigger] before[i].0 == u;
                        assert(i != p);
                        assert(after[i] == before[i]);
                    } else {
                        assert forall|i: int| 0 <= i < after.len() implies #[trigger] after[i].0 != u by {
                            if i != p {
                                assert(after[i] == before[i]);
                            }
                        }
                    }
                } else {
                    if exists|i: int| 0 <= i < before.len() && #[trigger] before[i].0 == u {
                        let i = choose|i: int| 0 <= i < before.len() && #[trigger] before[i].0 == u;
                        if i < p {
                            assert(after[i] == before[i]);
                        } else {
                            assert(after[i + 1] == before[i]);
                        }
                    } else {
                        assert forall|i: int| 0 <= i < after.len() implies #[trigger] after[i].0 != u by {
                            if i < p {
                                assert(after[i] == before[i]);
                            } else if i > p {
                                assert(after[i] == before[i - 1]);
                            }
                        }
                    }
                }
            }
        }
    }
}

/// Records, in order, each `(instant, kind)` of `plan`: where two share an
/// instant, the later one stays.
pub fn record_all(plan: &Vec<(i64, EventKind)>) -> (r: Events)
    ensures
        r.wf(),
        forall|u: i64| lookup(r.view(), u) == lookup(plan@, u),
{
    let mut events = Events::new();
    let mut i: usize = 0;
    while i < plan.len()
        invariant
            i <= plan@.len(),
            events.wf(),
            forall|u: i64| lookup(events.view(), u) == lookup(plan@.take(i as int), u),
        decreases plan@.len() - i,
    {
        let (t, kind) = plan[i];
        events.insert(t, kind);
        proof {
            assert(plan@.take(i + 1).drop_last() =~= plan@.take(i as int));
            assert(plan@.take(i + 1).last() == plan@[i as int]);
        }
        i = i + 1;
    }
    proof {
        assert(plan@.take(plan@.len() as int) =~= plan@);
    }
    events
}

/// Rising or setting times of the moon around the day: on the calendar day
/// of the instant, and on the days after and before.
#[derive(Clone, Copy, Debug, PartialEq, Eq, Structural)]
pub struct Transits {
    pub today: Option<i64>,
    pub next_day: Option<i64>,
    pub previous_day: Option<i64>,
}

/// The instants of the day and around it, computed from the instant, the
/// longitude and the latitude.
#[derive(Clone, Copy, Debug, PartialEq, Eq, Structural)]
pub struct Sky {
    pub timestamp: i64,
    /// The midnight that begins the day.
    pub day_begin: i64,
    /// The midnight that ends it.
    pub day_end: i64,
    /// The next occurrence of each season event after `day_begin`.
    pub march_equinox: i64,
    pub september_equinox: i64,
    pub december_solstice: i64,
    pub june_solstice: i64,
    /// The phases of the lunation of `day_begin`.
    pub new_moon: i64,
    pub first_quarter_moon: i64,
    pub full_moon: i64,
    pub last_quarter_moon: i64,
    pub moonrise: Transits,
    pub moonset: Transits,
    pub sunrise: Option<i64>,
    pub sunset: Option<i64>,
}

/// A season event is listed where it comes before the end of the day.
pub open spec fn season_part(sky: Sky, t: i64, kind: EventKind) -> Seq<(i64, EventKind)> {
    if t < sky.day_end {
        seq![(t, kind)]
    } else {
        seq![]
    }
}

/// A moon phase is listed where it falls strictly inside the day.
pub open spec fn phase_part(sky: Sky, t: i64, kind: EventKind) -> Seq<(i64, EventKind)> {
    if sky.day_begin < t && t < sky.day_end {
        seq![(t, kind)]
    } else {
        seq![]
    }
}

pub open spec fn within_day(sky: Sky, t: i64) -> bool {
    sky.day_begin <= t && t <= sky.day_end
}

/// A moon transit of the calendar day is listed where it falls in the day.
/// Where it falls before, the one of the next calendar day is listed if that
/// one falls in the day; where after, the one of the previous calendar day.
pub open spec fn transit_part(
    sky: Sky,
    tr: Transits,
    kind: EventKind,
    next_kind: EventKind,
    previous_kind: EventKind,
) -> Seq<(i64, EventKind)> {
    match tr.today {
        None => seq![],
        Some(e) => if e < sky.day_begin {
            match tr.next_day {
                Some(f) => if within_day(sky, f) {
                    seq![(f, next_kind)]
                } else {
                    seq![]
                },
                None => seq![],
            }
        } else if e > sky.day_end {
            match tr.previous_day {
                Some(f) => if within_day(sky, f) {
                    seq![(f, previous_kind)]
                } else {
                    seq![]
                },
                None => seq![],
            }
        } else {
            seq![(e, kind)]
        },
    }
}

pub open spec fn optional_part(t: Option<i64>, kind: EventKind) -> Seq<(i64, EventKind)> {
    match t {
        Some(e) => seq![(e, kind)],
        None => seq![],
    }
}

/// What is recorded for a day, in the order in which it is recorded.
pub open spec fn spec_plan(sky: Sky) -> Seq<(i64, EventKind)> {
    seq![(sky.timestamp, EventKind::Current)] + season_part(sky, sky.march_equinox, EventKind::Equinox)
        + season_part(sky, sky.september_equinox, EventKind::Equinox) + season_part(
        sky,
        sky.december_solstice,
        EventKind::Solstice,
    ) + season_part(sky, sky.june_solstice, EventKind::Solstice) + phase_part(
        sky,
        sky.new_moon,
        EventKind::NewMoon,
    ) + phase_part(sky, sky.first_quarter_moon, EventKind::FirstQuarterMoon) + phase_part(
        sky,
        sky.full_moon,
        EventKind::FullMoon,
    ) + phase_part(sky, sky.last_quarter_moon, EventKind::LastQuarterMoon) + transit_part(
        sky,
        sky.moonrise,
        EventKind::Moonrise,
        EventKind::MoonriseNextDay,
        EventKind::MoonrisePreviousDay,
    ) + transit_part(sky, sky.moonset, EventKind::Moonset, EventKind::Moonset, EventKind::Moonset)
        + optional_part(sky.sunrise, EventKind::Sunrise) + optional_part(sky.sunset, EventKind::Sunset)
}

fn push_season(plan: &mut Vec<(i64, EventKind)>, sky: &Sky, t: i64, kind: EventKind)
    ensures
        final(plan)@ == old(plan)@ + season_part(*sky, t, kind),
{
    if t < sky.day_end {
        plan.push((t, kind));
    }
    proof {
        assert(final(plan)@ =~= old(plan)@ + season_part(*sky, t, kind));
    }
}

fn push_phase(plan: &mut Vec<(i64, EventKind)>, sky: &Sky, t: i64, kind: EventKind)
    ensures
        final(plan)@ == old(plan)@ + phase_part(*sky, t, kind),
{
    if sky.day_begin < t && t < sky.day_end {
        plan.push((t, kind));
    }
    proof {
        assert(final(plan)@ =~= old(plan)@ + phase_part(*sky, t, kind));
    }
}

fn push_transit(
    plan: &mut Vec<(i64, EventKind)>,
    sky: &Sky,
    tr: Transits,
    kind: EventKind,
    next_kind: EventKind,
    previous_kind: EventKind,
)
    ensures
        final(plan)@ == old(plan)@ + transit_part(*sky, tr, kind, next_kind, previous_kind),
{
    if let Some(e) = tr.today {
        if e < sky.day_begin {
            if let Some(f) = tr.next_day {
                if sky.day_begin <= f && f <= sky.day_end {
                    plan.push((f, next_kind));
                }
            }
        } else if e > sky.day_end {
            if let Some(f) = tr.previous_day {
                if sky.day_begin <= f && f <= sky.day_end {
                    plan.push((f, previous_kind));
                }
            }
        } else {
            plan.push((e, kind));
        }
    }
    proof {
        assert(final(plan)@ =~= old(plan)@ + transit_part(*sky, tr, kind, next_kind, previous_kind));
    }
}

fn push_optional(plan: &mut Vec<(i64, EventKind)>, t: Option<i64>, kind: EventKind)
    ensures
        final(plan)@ == old(plan)@ + optional_part(t, kind),
{
    if let Some(e) = t {
        plan.push((e, kind));
    }
    proof {
        assert(final(plan)@ =~= old(plan)@ + optional_part(t, kind));
    }
}

/// What is recorded for a day, in the order in which it is recorded.
pub fn plan(sky: &Sky) -> (r: Vec<(i64, EventKind)>)
    ensures
        r@ == spec_plan(*sky),
{
    let mut p: Vec<(i64, EventKind)> = Vec::new();
    p.push((sky.timestamp, EventKind::Current));
    push_season(&mut p, sky, sky.march_equinox, EventKind::Equinox);
    push_season(&mut p, sky, sky.september_equinox, EventKind::Equinox);
    push_season(&mut p, sky, sky.december_solstice, EventKind::Solstice);
    push_season(&mut p, sky, sky.june_solstice, EventKind::Solstice);
    push_phase(&mut p, sky, sky.new_moon, EventKind::NewMoon);
    push_phase(&mut p, sky, sky.first_quarter_moon, EventKind::FirstQuarterMoon);
    push_phase(&mut p, sky, sky.full_moon, EventKind::FullMoon);
    push_phase(&mut p, sky, sky.last_quarter_moon, EventKind::LastQuarterMoon);
    push_transit(
        &mut p,
        sky,
        sky.moonrise,
        EventKind::Moonrise,
        EventKind::MoonriseNextDay,
        EventKind::MoonrisePreviousDay,
    );
    push_transit(&mut p, sky, sky.moonset, EventKind::Moonset, EventKind::Moonset, EventKind::Moonset);
    push_optional(&mut p, sky.sunrise, EventKind::Sunrise);
    push_optional(&mut p, sky.sunset, EventKind::Sunset);
    proof {
        assert(p@ =~= spec_plan(*sky));
    }
    p
}

/// The events of the day of `sky.timestamp`, in chronological order: the
/// instant itself; the season events before the end of the day; the moon
/// phases strictly inside it; the moonrise and moonset of the day; the
/// sunrise and the sunset where they occur. Where two fall on the same
/// instant, the one recorded later stays.
pub fn ephemeris(sky: &Sky) -> (r: Events)
    ensures
        r.wf(),
        forall|u: i64| lookup(r.view(), u) == lookup(spec_plan(*sky), u),
        labels_once(r.view()),
{
    let p = plan(sky);
    let r = record_all(&p);
    proof {
        lemma_labels_once(*sky);
        lemma_recorded_labels_once(r.view(), p@);
    }
    r
}

proof fn lemma_lookup_first(s: Seq<(i64, EventKind)>)
    requires
        s.len() > 0,
        forall|i: int| 1 <= i < s.len() ==> #[trigger] s[i].0 != s[0].0,
    ensures
        lookup(s, s[0].0) == Some(s[0].1),
    decreases s.len(),
{
    if s.len() > 1 {
        assert(s[s.len() - 1].0 != s[0].0);
        assert forall|i: int| 1 <= i < s.drop_last().len() implies #[trigger] s.drop_last()[i].0
            != s.drop_last()[0].0 by {
            assert(s.drop_last()[i] == s[i]);
        }
        lemma_lookup_first(s.drop_last());
    }
}

/// The instant asked about is always listed as the current one, unless
/// another event falls on that very instant, in which case that event,
/// recorded later, takes its place.
pub proof fn lemma_current_listed(sky: Sky)
    requires
        forall|i: int| 1 <= i < spec_plan(sky).len() ==> #[trigger] spec_plan(sky)[i].0 != sky.timestamp,
    ensures
        lookup(spec_plan(sky), sky.timestamp) == Some(EventKind::Current),
{
    lemma_lookup_first(spec_plan(sky));
}

/// The labels that two distinct phenomena share: the two equinoxes, and the
/// two solstices.
pub open spec fn shared_label(k: EventKind) -> bool {
    k == EventKind::Equinox || k == EventKind::Solstice
}

/// No label is recorded twice but a shared one.
pub open spec fn labels_once(s: Seq<(i64, EventKind)>) -> bool {
    forall|i: int, j: int|
        0 <= i < j < s.len() && #[trigger] s[i].1 == #[trigger] s[j].1 ==> shared_label(s[i].1)
}

pub open spec fn kinds_among(s: Seq<(i64, EventKind)>, ks: Set<EventKind>) -> bool {
    forall|i: int| 0 <= i < s.len() ==> ks.contains(#[trigger] s[i].1)
}

proof fn lemma_extend_labels(
    a: Seq<(i64, EventKind)>,
    b: Seq<(i64, EventKind)>,
    before: Set<EventKind>,
    added: Set<EventKind>,
)
    requires
        labels_once(a),
        kinds_among(a, before),
        b.len() <= 1,
        kinds_among(b, added),
        forall|k: EventKind| before.contains(k) && added.contains(k) ==> shared_label(k),
    ensures
        labels_once(a + b),
        kinds_among(a + b, before.union(added)),
{
    let c = a + b;
    assert forall|i: int, j: int| 0 <= i < j < c.len() && #[trigger] c[i].1 == #[trigger] c[j].1 implies shared_label(
        c[i].1,
    ) by {
        if j < a.len() {
            assert(c[i] == a[i] && c[j] == a[j]);
        } else {
            assert(j == a.len());
            assert(c[j] == b[0]);
            assert(c[i] == a[i]);
            assert(before.contains(a[i].1));
            assert(added.contains(b[0].1));
        }
    }
    assert forall|i: int| 0 <= i < c.len() implies before.union(added).contains(#[trigger] c[i].1) by {
        if i < a.len() {
            assert(c[i] == a[i]);
        } else {
            assert(c[i] == b[i - a.len()]);
        }
    }
}

/// Each label is recorded at most once for a day, but `Equinox` and
/// `Solstice`, which the March and September equinoxes, and the December and
/// June solstices, share: a label repeats only for distinct phenomena.
pub proof fn lemma_labels_once(sky: Sky)
    ensures
        labels_once(spec_plan(sky)),
{
    let part0 = seq![(sky.timestamp, EventKind::Current)];
    let part1 = season_part(sky, sky.march_equinox, EventKind::Equinox);
    let part2 = season_part(sky, sky.september_equinox, EventKind::Equinox);
    let part3 = season_part(sky, sky.december_solstice, EventKind::Solstice);
    let part4 = season_part(sky, sky.june_solstice, EventKind::Solstice);
    let part5 = phase_part(sky, sky.new_moon, EventKind::NewMoon);
    let part6 = phase_part(sky, sky.first_quarter_moon, EventKind::FirstQuarterMoon);
    let part7 = phase_part(sky, sky.full_moon, EventKind::FullMoon);
    let part8 = phase_part(sky, sky.last_quarter_moon, EventKind::LastQuarterMoon);
    let part9 = transit_part(
        sky,
        sky.moonrise,
        EventKind::Moonrise,
        EventKind::MoonriseNextDay,
        EventKind::MoonrisePreviousDay,
    );
    let part10 = transit_part(sky, sky.moonset, EventKind::Moonset, EventKind::Moonset, EventKind::Moonset);
    let part11 = optional_part(sky.sunrise, EventKind::Sunrise);
    let part12 = optional_part(sky.sunset, EventKind::Sunset);

    let kinds0 = set![EventKind::Current];
    let kinds1 = set![EventKind::Equinox];
    let kinds3 = set![EventKind::Solstice];
    let kinds5 = set![EventKind::NewMoon];
    let kinds6 = set![EventKind::FirstQuarterMoon];
    let kinds7 = set![EventKind::FullMoon];
    let kinds8 = set![EventKind::LastQuarterMoon];
    let kinds9 = set![EventKind::Moonrise, EventKind::MoonriseNextDay, EventKind::MoonrisePreviousDay];
    let kinds10 = set![EventKind::Moonset];
    let kinds11 = set![EventKind::Sunrise];
    let kinds12 = set![EventKind::Sunset];

    assert(labels_once(part0));
    assert(kinds_among(part0, kinds0));
    assert(kinds_among(part1, kinds1));
    assert(kinds_among(part2, kinds1));
    assert(kinds_among(part3, kinds3));
    assert(kinds_among(part4, kinds3));
    assert(kinds_among(part5, kinds5));
    assert(kinds_among(part6, kinds6));
    assert(kinds_among(part7, kinds7));
    assert(kinds_among(part8, kinds8));
    assert(kinds_among(part9, kinds9));
    assert(kinds_among(part10, kinds10));
    assert(kinds_among(part11, kinds11));
    assert(kinds_among(part12, kinds12));

    let seen1 = kinds0;
    lemma_extend_labels(part0, part1, seen1, kinds1);
    let seen2 = seen1.union(kinds1);
    lemma_extend_labels(part0 + part1, part2, seen2, kinds1);
    let seen3 = seen2.union(kinds1);
    lemma_extend_labels(part0 + part1 + part2, part3, seen3, kinds3);
    let seen4 = seen3.union(kinds3);
    lemma_extend_labels(part0 + part1 + part2 + part3, part4, seen4, kinds3);
    let seen5 = seen4.union(kinds3);
    lemma_extend_labels(part0 + part1 + part2 + part3 + part4, part5, seen5, kinds5);
    let seen6 = seen5.union(kinds5);
    lemma_extend_labels(part0 + part1 + part2 + part3 + part4 + part5, part6, seen6, kinds6);
    let seen7 = seen6.union(kinds6);
    lemma_extend_labels(part0 + part1 + part2 + part3 + part4 + part5 + part6, part7, seen7, kinds7);
    let seen8 = seen7.union(kinds7);
    lemma_extend_labels(part0 + part1 + part2 + part3 + part4 + part5 + part6 + part7, part8, seen8, kinds8);
    let seen9 = seen8.union(kinds8);
    lemma_extend_labels(part0 + part1 + part2 + part3 + part4 + part5 + part6 + part7 + part8, part9, seen9, kinds9);
    let seen10 = seen9.union(kinds9);
    lemma_extend_labels(part0 + part1 + part2 + part3 + part4 + part5 + part6 + part7 + part8 + part9, part10, seen10, kinds10);
    let seen11 = seen10.union(kinds10);
    lemma_extend_labels(part0 + part1 + part2 + part3 + part4 + part5 + part6 + part7 + part8 + part9 + part10, part11, seen11, kinds11);
    let seen12 = seen11.union(kinds11);
    lemma_extend_labels(part0 + part1 + part2 + part3 + part4 + part5 + part6 + part7 + part8 + part9 + part10 + part11, part12, seen12, kinds12);
}

proof fn lemma_lookup_source(s: Seq<(i64, EventKind)>, t: i64)
    ensures
        lookup(s, t) matches Some(k) ==> exists|i: int| 0 <= i < s.len() && #[trigger] s[i] == (t, k),
    decreases s.len(),
{
    if s.len() > 0 {
        if s.last().0 != t {
            lemma_lookup_source(s.drop_last(), t);
            if let Some(k) = lookup(s, t) {
                let i = choose|i: int| 0 <= i < s.drop_last().len() && #[trigger] s.drop_last()[i] == (t, k);
                assert(s[i] == s.drop_last()[i]);
            }
        } else {
            assert(s[s.len() - 1] == (t, s.last().1));
        }
    }
}

/// A sorted list that records what `plan` records keeps its labels as rare.
proof fn lemma_recorded_labels_once(r: Seq<(i64, EventKind)>, plan: Seq<(i64, EventKind)>)
    requires
        strictly_sorted(r),
        forall|u: i64| lookup(r, u) == lookup(plan, u),
        labels_once(plan),
    ensures
        labels_once(r),
{
    assert forall|i: int, j: int| 0 <= i < j < r.len() && #[trigger] r[i].1 == #[trigger] r[j].1 implies shared_label(
        r[i].1,
    ) by {
        lemma_lookup_found(r, i);
        lemma_lookup_found(r, j);
        lemma_lookup_source(plan, r[i].0);
        lemma_lookup_source(plan, r[j].0);
        assert(lookup(plan, r[i].0) == Some(r[i].1));
        assert(lookup(plan, r[j].0) == Some(r[j].1));
        let a = choose|a: int| 0 <= a < plan.len() && #[trigger] plan[a] == (r[i].0, r[i].1);
        let b = choose|b: int| 0 <= b < plan.len() && #[trigger] plan[b] == (r[j].0, r[j].1);
        assert(r[i].0 < r[j].0);
        assert(a != b);
        if a < b {
            assert(plan[a].1 == plan[b].1);
        } else {
            assert(plan[b].1 == plan[a].1);
        }
    }
}

} // verus!
