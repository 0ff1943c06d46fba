use geodate::delta_time::terrestrial_to_universal_time;
use geodate::earth_orbit::{
    following, get_next_december_solstice, get_next_june_solstice, get_next_march_equinox,
    get_next_september_equinox, get_next_time_of, get_previous_december_solstice,
    get_previous_june_solstice, get_previous_march_equinox, get_previous_september_equinox,
    get_previous_time_of, Event, Lookup, YEAR_SHIFT,
};
use geodate::moon_phase::{get_next_new_moon, NewMoon};

#[test]
fn next_occurrence_is_strictly_later() {
    assert_eq!(get_next_time_of(100, 200), Lookup::Found(200));
    assert_eq!(get_next_time_of(100, 100), Lookup::Retry(100 + 31557600));
    assert_eq!(get_next_time_of(100, 50), Lookup::Retry(100 + YEAR_SHIFT));
}

#[test]
fn previous_occurrence_is_strictly_earlier() {
    assert_eq!(get_previous_time_of(100, 50), Lookup::Found(50));
    assert_eq!(get_previous_time_of(100, 100), Lookup::Retry(100 - 31557600));
    assert_eq!(get_previous_time_of(100, 200), Lookup::Retry(100 - YEAR_SHIFT));
}

#[test]
fn each_event_decides_alike() {
    let t = 1403322675;
    // December solstice 2013 and 2014, as seen from mid 2014
    let dec_2014 = 1419120000;
    let dec_2013 = 1387645873;
    assert_eq!(get_previous_december_solstice(t, dec_2014), Lookup::Retry(t - YEAR_SHIFT));
    assert_eq!(get_previous_december_solstice(t, dec_2013), Lookup::Found(dec_2013));
    assert_eq!(get_next_december_solstice(t, dec_2014), Lookup::Found(dec_2014));
    assert_eq!(get_next_march_equinox(t, t - 1), Lookup::Retry(t + YEAR_SHIFT));
    assert_eq!(get_previous_march_equinox(t, t - 1), Lookup::Found(t - 1));
    assert_eq!(get_next_june_solstice(t, t), Lookup::Retry(t + YEAR_SHIFT));
    assert_eq!(get_previous_june_solstice(t, t), Lookup::Retry(t - YEAR_SHIFT));
    assert_eq!(get_next_september_equinox(t, t + 1), Lookup::Found(t + 1));
    assert_eq!(get_previous_september_equinox(t, t + 1), Lookup::Retry(t - YEAR_SHIFT));
}

#[test]
fn solar_months_follow_the_seasons() {
    assert_eq!(following(Event::MarchEquinox), Event::JuneSolstice);
    assert_eq!(following(Event::JuneSolstice), Event::SeptemberEquinox);
    assert_eq!(following(Event::SeptemberEquinox), Event::DecemberSolstice);
    assert_eq!(following(Event::DecemberSolstice), Event::MarchEquinox);
}

#[test]
fn next_new_moon_is_strictly_later() {
    assert_eq!(get_next_new_moon(100, 101), NewMoon::Found(101));
    assert_eq!(get_next_new_moon(100, 100), NewMoon::Following);
    assert_eq!(get_next_new_moon(100, 99), NewMoon::Following);
}

#[test]
fn universal_time_subtracts_delta_t() {
    assert_eq!(terrestrial_to_universal_time(1403322675, 67), 1403322608);
    assert_eq!(terrestrial_to_universal_time(0, -5), 5);
}
