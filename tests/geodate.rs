use geodate::geodate::{
    choose_epoch, compose, count_days, epoch_zero, epochs, format_calendar, format_epoch, render,
    settle_midnight, Calendar, CalendarError, DayCount, Epoch, GeoDate,
};

const DAY: i64 = 86400;

fn date(negative: bool, year: i64, month: i64, day: i64, centiday: i64, dimiday: i64) -> GeoDate {
    GeoDate { negative, year, month, day, centiday, dimiday }
}

#[test]
fn epochs_are_latest_first() {
    assert_eq!(
        epochs(),
        vec![0, -410227200, -1009843200, -2208988800, -8551872000, -10950249600]
    );
    assert_eq!(epoch_zero(Epoch::Unix), 0);
    assert_eq!(epoch_zero(Epoch::Gregorian), -2208988800);
}

#[test]
fn format_selects_epoch_and_calendar() {
    assert_eq!(format_epoch("%u:%m:%d:%c:%b"), Epoch::Unix);
    assert_eq!(format_epoch("%h:%y:%m:%d:%c:%b"), Epoch::Gregorian);
    assert_eq!(format_calendar("%u:%s:%d:%c:%b"), Calendar::Solar);
    assert_eq!(format_calendar("%u:%m:%d:%c:%b"), Calendar::Lunisolar);
    assert_eq!(format_calendar("%%u s"), Calendar::Lunisolar);
}

#[test]
fn choose_epoch_takes_the_first_start_before_now() {
    let starts = vec![518775, -410000000, -1009000000];
    assert_eq!(choose_epoch(1403322675, &starts), Ok(0));
    assert_eq!(choose_epoch(518775, &starts), Ok(1));
    assert_eq!(choose_epoch(-500000000, &starts), Ok(2));
    // the instant at the last start itself: the last epoch begins there
    assert_eq!(choose_epoch(-1009000000, &starts), Ok(2));
    assert_eq!(choose_epoch(-1009000001, &starts), Err(CalendarError::TooFarBack));
    assert_eq!(choose_epoch(5, &vec![]), Err(CalendarError::TooFarBack));
    // an instant at a start that is not the last goes on to an earlier epoch
    assert_eq!(choose_epoch(30, &vec![30, 20, 10]), Ok(1));
    assert_eq!(choose_epoch(10, &vec![30, 20, 10]), Ok(2));
}

#[test]
fn settle_midnight_moves_to_the_right_day() {
    assert_eq!(settle_midnight(1000, 500), 500);
    assert_eq!(settle_midnight(1000, 1500), 1500 - DAY);
    assert_eq!(settle_midnight(1000, 1000 - DAY), 1000);
    assert_eq!(settle_midnight(1000, 1000), 1000);
}

#[test]
fn first_day_of_the_count() {
    // 1970-01-07T00:06:15Z is the midnight of the first new moon day of 1970
    let zero = 518775;
    let months = vec![zero + 30 * DAY];
    let years = vec![zero + 350 * DAY];
    let c = count_days(Calendar::Lunisolar, zero, zero, &months, &years).unwrap();
    assert_eq!(c, DayCount { year: 0, month: 0, day: 0 });
    let g = compose(c, zero, epoch_zero(Epoch::Unix), zero, zero);
    assert_eq!(g, date(false, 0, 0, 0, 0, 0));
    assert_eq!(render("%u:%m:%d:%c:%b", &g, zero), "00:00:00:00:00");
}

#[test]
fn one_second_before_and_after_a_new_moon_day() {
    let zero = 0;
    let months = vec![10 * DAY + 100, 40 * DAY];
    let years = vec![300 * DAY];
    let before = count_days(Calendar::Lunisolar, zero, 9 * DAY, &months, &years).unwrap();
    assert_eq!(before, DayCount { year: 0, month: 0, day: 9 });
    let g = compose(before, zero, 0, 10 * DAY - 1, 9 * DAY);
    assert_eq!((g.centiday, g.dimiday), (99, 99));
    assert_eq!(render("%u:%m:%d:%c:%b", &g, 10 * DAY - 1), "00:00:09:99:99");

    let after = count_days(Calendar::Lunisolar, zero, 10 * DAY, &months, &years).unwrap();
    assert_eq!(after, DayCount { year: 0, month: 1, day: 0 });
    let g = compose(after, zero, 0, 10 * DAY + 1, 10 * DAY);
    assert_eq!(render("%u:%m:%d:%c:%b", &g, 10 * DAY + 1), "00:01:00:00:00");
}

#[test]
fn lunisolar_year_begins_with_the_month_after_the_solstice() {
    let months = vec![5 * DAY, 20 * DAY, 35 * DAY];
    let years = vec![19 * DAY + 500];
    let c = count_days(Calendar::Lunisolar, 0, 21 * DAY, &months, &years).unwrap();
    assert_eq!(c, DayCount { year: 1, month: 0, day: 1 });
}

#[test]
fn solar_year_has_four_months() {
    let months = vec![2 * DAY, 4 * DAY, 6 * DAY, 8 * DAY, 10 * DAY];
    let c = count_days(Calendar::Solar, 0, 7 * DAY, &months, &vec![]).unwrap();
    assert_eq!(c, DayCount { year: 0, month: 3, day: 1 });
    let c = count_days(Calendar::Solar, 0, 8 * DAY, &months, &vec![]).unwrap();
    assert_eq!(c, DayCount { year: 1, month: 0, day: 0 });
    let c = count_days(Calendar::Solar, 0, 9 * DAY, &months, &vec![]).unwrap();
    assert_eq!(c, DayCount { year: 1, month: 0, day: 1 });
}

#[test]
fn walk_stops_within_the_slack_of_midnight() {
    let months = vec![100 * DAY];
    let c = count_days(Calendar::Lunisolar, 0, 3 * DAY + 1999, &months, &vec![]).unwrap();
    assert_eq!(c, DayCount { year: 0, month: 0, day: 3 });
    let c = count_days(Calendar::Lunisolar, 0, 3 * DAY + 2001, &months, &vec![]).unwrap();
    assert_eq!(c, DayCount { year: 0, month: 0, day: 4 });
}

#[test]
fn walk_reports_missing_markers() {
    let months = vec![DAY + 10];
    let years = vec![100 * DAY];
    assert_eq!(
        count_days(Calendar::Lunisolar, 0, 5 * DAY, &months, &years),
        Err(CalendarError::MissingMarker)
    );
    assert_eq!(
        count_days(Calendar::Lunisolar, 0, 5 * DAY, &vec![], &years),
        Err(CalendarError::MissingMarker)
    );
    assert_eq!(
        count_days(Calendar::Lunisolar, 0, 5 * DAY, &vec![DAY], &vec![]),
        Err(CalendarError::MissingMarker)
    );
}

#[test]
fn compose_counts_years_from_the_chosen_epoch() {
    // walk from 1957 (about 13 years before 1970), 2 years counted
    let c = DayCount { year: 2, month: 3, day: 4 };
    let zero = -410227200 + 86400;
    let g = compose(c, zero, 0, 1000, 0);
    assert_eq!(g.negative, true);
    assert_eq!(g.year, 11);
    let g = compose(c, zero, -2208988800, 1000, 0);
    assert_eq!(g.negative, false);
    assert_eq!(g.year, 2 + 57);
    assert_eq!((g.month, g.day), (3, 4));
    // 1000 s after midnight: 115 ten-thousandths of the day
    assert_eq!((g.centiday, g.dimiday), (1, 15));
}

#[test]
fn render_writes_every_token() {
    let g = date(false, 114, 5, 24, 15, 42);
    assert_eq!(render("%h:%y:%m:%d:%c:%b", &g, 1403322675), "01:14:05:24:15:42");
    assert_eq!(render("%u:%s:%d:%c:%b", &g, 0), "14:05:24:15:42");
    assert_eq!(render("%x", &g, 1403322675), "1403322675");
    assert_eq!(render("%x", &g, -42), "-42");
    assert_eq!(render("%q%%y %", &g, 0), "%q%14 %");
    assert_eq!(render("", &g, 0), "");
}

#[test]
fn render_marks_negative_dates() {
    let g = date(true, 1, 11, 22, 99, 75);
    assert_eq!(render("%h:%u:%m:%d:%c:%b", &g, 0), "-00:01:11:22:99:75");
    assert_eq!(render("%u:%m:%d:%c:%b", &g, 0), "-01:11:22:99:75");
    let g = date(true, 347, 0, 0, 0, 0);
    assert_eq!(render("%h:%u:%m:%d:%c:%b", &g, 0), "-03:47:00:00:00:00");
}

#[test]
fn rendered_date_reads_back_as_its_fields() {
    let g = date(false, 44, 2, 0, 15, 42);
    let s = render("%u:%m:%d:%c:%b", &g, 0);
    assert_eq!(s, "44:02:00:15:42");
    assert_eq!(geodate::reverse::date_index(&s), Ok(4402001542));
    let later = date(false, 44, 2, 1, 0, 0);
    let t = render("%u:%m:%d:%c:%b", &later, 0);
    assert!(geodate::reverse::date_index(&s).unwrap() < geodate::reverse::date_index(&t).unwrap());
}

#[test]
fn later_midnights_never_give_earlier_dates() {
    let months = vec![3 * DAY + 5, 33 * DAY, 62 * DAY, 92 * DAY];
    let years = vec![60 * DAY];
    let mut last = (0, 0, 0);
    for k in 0..80 {
        let c = count_days(Calendar::Lunisolar, 0, k * DAY, &months, &years).unwrap();
        let now = (c.year, c.month, c.day);
        if k > 0 {
            assert!(now > last, "day {} repeats or goes back", k);
        }
        last = now;
    }
}

#[test]
fn fraction_grows_through_the_day() {
    let c = DayCount { year: 0, month: 0, day: 0 };
    let mut last = (0, 0);
    for s in (0..DAY).step_by(997) {
        let g = compose(c, 0, 0, s, 0);
        assert!((g.centiday, g.dimiday) >= last);
        last = (g.centiday, g.dimiday);
    }
    let g = compose(c, 0, 0, DAY - 1, 0);
    assert_eq!((g.centiday, g.dimiday), (99, 99));
}

#[test]
fn midnight_opens_the_next_day_once() {
    let months = vec![4 * DAY + 7, 33 * DAY];
    let years = vec![4 * DAY + 9];
    for k in 1..8 {
        let a = count_days(Calendar::Lunisolar, 0, k * DAY, &months, &years).unwrap();
        let b = count_days(Calendar::Lunisolar, 0, (k + 1) * DAY, &months, &years).unwrap();
        let next_day = b.year == a.year && b.month == a.month && b.day == a.day + 1;
        let next_month = b.year == a.year && b.month == a.month + 1 && b.day == 0;
        let next_year = b.year == a.year + 1 && b.month == 0 && b.day == 0;
        assert!(next_day || next_month || next_year);
        let last = compose(a, 0, 0, (k + 1) * DAY - 1, k * DAY);
        assert_eq!((last.centiday, last.dimiday), (99, 99));
        let first = compose(b, 0, 0, (k + 1) * DAY, (k + 1) * DAY);
        assert_eq!((first.centiday, first.dimiday), (0, 0));
    }
}
