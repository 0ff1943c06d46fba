use geodate::reverse::{date_index, date_year, search_start, Bracket, DateError, Probe};

#[test]
fn date_year_test() {
    assert_eq!(date_year("00:00:00:00:00"), Ok(0));
    assert_eq!(date_year("02:00:00:00:00"), Ok(2));
    assert_eq!(date_year("42:00:00:00:00"), Ok(42));

    assert_eq!(date_year("-00:00:00:00:00"), Ok(0));
    assert_eq!(date_year("-02:00:00:00:00"), Ok(-2));
    assert_eq!(date_year("-42:00:00:00:00"), Ok(-42));

    assert_eq!(date_year("00:00:00:00:00:00"), Ok(0));
    assert_eq!(date_year("00:02:00:00:00:00"), Ok(2));
    assert_eq!(date_year("00:42:00:00:00:00"), Ok(42));
    assert_eq!(date_year("03:37:00:00:00:00"), Ok(337));
    assert_eq!(date_year("13:37:00:00:00:00"), Ok(1337));

    assert_eq!(date_year("-00:00:00:00:00:00"), Ok(0));
    assert_eq!(date_year("-00:02:00:00:00:00"), Ok(-2));
    assert_eq!(date_year("-00:42:00:00:00:00"), Ok(-42));
    assert_eq!(date_year("-03:37:00:00:00:00"), Ok(-337));
    assert_eq!(date_year("-13:37:00:00:00:00"), Ok(-1337));
}

#[test]
fn date_index_test() {
    assert_eq!(date_index("00:00:00:00:00:00"), Ok(0));
    assert_eq!(date_index("00:02:00:00:00:00"), Ok(200000000));
    assert_eq!(date_index("-00:02:00:00:00:00"), Ok(-200000000));
    assert_eq!(date_index("-00:02:05:00:00:00"), Ok(-195000000));
    assert_eq!(date_index("-00:02:10:00:00:00"), Ok(-190000000));
    assert_eq!(date_index("-00:01:00:00:00:00"), Ok(-100000000));
    assert_eq!(date_index("-00:01:10:00:00:00"), Ok(-90000000));
    assert_eq!(date_index("-00:01:11:28:99:99"), Ok(-88710001));
}

#[test]
fn date_year_rejects_malformed_dates() {
    assert_eq!(date_year("00:00:00:00"), Err(DateError::WrongFormat));
    assert_eq!(date_year("00:00:00:00:00:00:00"), Err(DateError::WrongFormat));
    assert_eq!(date_year(""), Err(DateError::WrongFormat));
    assert_eq!(date_year("ab:00:00:00:00"), Err(DateError::NotANumber));
    assert_eq!(date_year(":00:00:00:00"), Err(DateError::NotANumber));
    assert_eq!(date_year("00:-2:00:00:00:00"), Err(DateError::NotANumber));
    assert_eq!(date_year("99999999999999999999:00:00:00:00"), Err(DateError::NotANumber));
    assert_eq!(date_year("+7:00:00:00:00"), Ok(7));
}

#[test]
fn date_index_of_positive_five_field_date() {
    assert_eq!(date_index("44:02:00:15:42"), Ok(4402001542));
    assert_eq!(date_index("00:00:00:00:00"), Ok(0));
    assert_eq!(date_index("-01:11:22:99:75"), Ok(-100000000 + 11229975));
}

#[test]
fn date_index_rejects_non_numbers_and_overflow() {
    assert_eq!(date_index("00:0x:00:00:00"), Err(DateError::NotANumber));
    assert_eq!(date_index("00:00"), Err(DateError::WrongFormat));
    assert_eq!(
        date_index("-99999999999:00:00:00:00"),
        Err(DateError::NotANumber)
    );
    assert_eq!(date_index("-9999999999999:0:0:0:0"), Err(DateError::OutOfRange));
}

#[test]
fn date_index_orders_dates_before_the_reference() {
    let a = date_index("-00:02:05:00:00:00").unwrap();
    let b = date_index("-00:02:10:00:00:00").unwrap();
    let c = date_index("-00:01:00:00:00:00").unwrap();
    let d = date_index("00:00:00:00:00:00").unwrap();
    assert!(a < b && b < c && c < d);
}

#[test]
fn search_start_brackets_unix_years() {
    // 44 years after 1970: two years of 365 days on each side
    let (b, n) = search_start("%u:%m:%d:%c:%b", "44:02:00:15:42").unwrap();
    assert_eq!(n, 4402001542);
    assert_eq!(b, Bracket { min: 42 * 365 * 86400, max: 46 * 365 * 86400 });
}

#[test]
fn search_start_clamps_at_the_start_of_the_count() {
    let (b, _) = search_start("%u:%m:%d:%c:%b", "00:05:00:00:00").unwrap();
    assert_eq!(b, Bracket { min: 518780, max: 2 * 365 * 86400 });
    let (b, _) = search_start("%u:%m:%d:%c:%b", "-00:05:00:00:00").unwrap();
    assert_eq!(b, Bracket { min: -2 * 365 * 86400, max: 518780 - 9 });
}

#[test]
fn search_start_shifts_gregorian_years() {
    let (b, _) = search_start("%h:%y:%m:%d:%c:%b", "01:14:05:24:15:42").unwrap();
    assert_eq!(b, Bracket { min: (112 - 70) * 365 * 86400, max: (116 - 70) * 365 * 86400 });
}

#[test]
fn search_start_reports_bad_dates() {
    assert_eq!(search_start("%u", "1:2"), Err(DateError::WrongFormat));
}

#[test]
fn probe_narrows_toward_the_target() {
    let b = Bracket { min: 0, max: 100 };
    assert_eq!(b.midpoint(), 50);
    assert_eq!(b.probe(7, 3), Probe::Next(Bracket { min: 50, max: 100 }));
    assert_eq!(b.probe(7, 9), Probe::Next(Bracket { min: 0, max: 50 }));
    assert_eq!(b.probe(7, 7), Probe::Done(50));
    let b = Bracket { min: 4, max: 5 };
    assert_eq!(b.probe(7, 3), Probe::Done(4));
    let b = Bracket { min: -3, max: -2 };
    assert_eq!(b.midpoint(), -2);
}

#[test]
fn bisection_finds_an_instant_of_a_step_function() {
    // index grows by one every ten seconds
    let f = |t: i64| t.div_euclid(10);
    let target = 4321;
    let mut b = Bracket { min: 0, max: 1_000_000 };
    let found = loop {
        match b.probe(target, f(b.midpoint())) {
            Probe::Done(t) => break t,
            Probe::Next(c) => b = c,
        }
    };
    assert_eq!(f(found), target);
}
