use geodate::ephemeris::{ephemeris, plan, record_all, EventKind, Events, Sky, Transits};

const NONE: Transits = Transits { today: None, next_day: None, previous_day: None };

fn sky() -> Sky {
    Sky {
        timestamp: 50_000,
        day_begin: 0,
        day_end: 86_400,
        march_equinox: 10_000_000,
        september_equinox: 20_000_000,
        december_solstice: 30_000,
        june_solstice: 40_000_000,
        new_moon: 1_000_000,
        first_quarter_moon: -5,
        full_moon: 70_000,
        last_quarter_moon: 86_400,
        moonrise: NONE,
        moonset: NONE,
        sunrise: Some(20_000),
        sunset: Some(80_000),
    }
}

#[test]
fn events_are_listed_in_order() {
    let e = ephemeris(&sky());
    assert_eq!(
        e.entries().clone(),
        vec![
            (20_000, EventKind::Sunrise),
            (30_000, EventKind::Solstice),
            (50_000, EventKind::Current),
            (70_000, EventKind::FullMoon),
            (80_000, EventKind::Sunset),
        ]
    );
}

#[test]
fn polar_night_has_no_sunrise_or_sunset() {
    let mut s = sky();
    s.sunrise = None;
    s.sunset = None;
    let e = ephemeris(&s);
    assert!(e.entries().iter().all(|&(_, k)| k != EventKind::Sunrise && k != EventKind::Sunset));
    assert!(e.entries().contains(&(50_000, EventKind::Current)));
}

#[test]
fn later_event_at_the_same_instant_wins() {
    let mut s = sky();
    s.sunrise = Some(50_000);
    let e = ephemeris(&s);
    assert!(e.entries().contains(&(50_000, EventKind::Sunrise)));
    assert!(!e.entries().iter().any(|&(_, k)| k == EventKind::Current));
}

#[test]
fn moonrise_of_a_neighbouring_day_is_taken_when_inside() {
    let mut s = sky();
    s.moonrise = Transits { today: Some(-100), next_day: Some(86_000), previous_day: None };
    s.moonset = Transits { today: Some(90_000), next_day: None, previous_day: Some(3_000) };
    let p = plan(&s);
    assert!(p.contains(&(86_000, EventKind::MoonriseNextDay)));
    assert!(p.contains(&(3_000, EventKind::Moonset)));
    s.moonrise = Transits { today: Some(90_000), next_day: None, previous_day: Some(-1) };
    assert!(!plan(&s).iter().any(|&(_, k)| k == EventKind::MoonrisePreviousDay));
    s.moonrise = Transits { today: Some(40_000), next_day: Some(1), previous_day: Some(2) };
    assert!(plan(&s).contains(&(40_000, EventKind::Moonrise)));
}

#[test]
fn insert_keeps_order_and_replaces() {
    let mut e = Events::new();
    e.insert(5, EventKind::NewMoon);
    e.insert(1, EventKind::FullMoon);
    e.insert(9, EventKind::Sunset);
    e.insert(5, EventKind::Sunrise);
    assert_eq!(
        e.entries().clone(),
        vec![(1, EventKind::FullMoon), (5, EventKind::Sunrise), (9, EventKind::Sunset)]
    );
    let r = record_all(&vec![(3, EventKind::Current), (3, EventKind::Equinox), (2, EventKind::Solstice)]);
    assert_eq!(r.entries().clone(), vec![(2, EventKind::Solstice), (3, EventKind::Equinox)]);
}

#[test]
fn labels_repeat_only_for_distinct_seasons() {
    let mut s = sky();
    s.march_equinox = 10_000;
    s.september_equinox = 60_000;
    s.moonrise = Transits { today: Some(30_500), next_day: None, previous_day: None };
    s.moonset = Transits { today: Some(40_500), next_day: None, previous_day: None };
    let e = ephemeris(&s);
    let kinds: Vec<EventKind> = e.entries().iter().map(|&(_, k)| k).collect();
    for (i, a) in kinds.iter().enumerate() {
        for b in kinds.iter().skip(i + 1) {
            if a == b {
                assert!(*a == EventKind::Equinox || *a == EventKind::Solstice);
            }
        }
    }
    assert_eq!(kinds.iter().filter(|&&k| k == EventKind::Equinox).count(), 2);
}
