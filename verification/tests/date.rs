use pf_dashboard::date::commit_date;

fn is_leap(year: i64) -> bool {
    year.rem_euclid(4) == 0 && (year.rem_euclid(100) != 0 || year.rem_euclid(400) == 0)
}

fn month_length(year: i64, month: i64) -> i64 {
    match month {
        2 => if is_leap(year) { 29 } else { 28 },
        4 | 6 | 9 | 11 => 30,
        _ => 31,
    }
}

fn day_number(year: i64, month: i64, day: i64) -> i64 {
    let mut days = 365 * year + (year + 3).div_euclid(4) - (year + 99).div_euclid(100)
        + (year + 399).div_euclid(400);
    for m in 1..month {
        days += month_length(year, m);
    }
    days + day - 1 - 719528
}

fn date_text(year: i64, month: i64, day: i64) -> String {
    let front = if (0..=9999).contains(&year) {
        format!("{:04}", year)
    } else if year > 9999 {
        format!("+{}", year)
    } else {
        format!("-{:04}", -year)
    };
    format!("{}-{:02}-{:02}", front, month, day)
}

#[test]
fn dates_of_some_seconds() {
    assert_eq!(commit_date(0).as_deref(), Some("1970-01-01"));
    assert_eq!(commit_date(-1).as_deref(), Some("1969-12-31"));
    assert_eq!(commit_date(951782399).as_deref(), Some("2000-02-28"));
    assert_eq!(commit_date(951782400).as_deref(), Some("2000-02-29"));
    assert_eq!(commit_date(1700000000).as_deref(), Some("2023-11-14"));
    assert_eq!(commit_date(253402300799).as_deref(), Some("9999-12-31"));
    assert_eq!(commit_date(253402300800).as_deref(), Some("+10000-01-01"));
    assert_eq!(commit_date(-62167219200).as_deref(), Some("0000-01-01"));
    assert_eq!(commit_date(-62167219201).as_deref(), Some("-0001-12-31"));
}

#[test]
fn a_date_lasts_a_day() {
    assert_eq!(commit_date(86399).as_deref(), Some("1970-01-01"));
    assert_eq!(commit_date(86400).as_deref(), Some("1970-01-02"));
}

#[test]
fn every_day_of_some_years() {
    let years = [
        -262143i64, -10001, -10000, -9999, -401, -400, -100, -4, -1, 0, 1, 4, 100, 400, 999, 1000,
        1582, 1600, 1700, 1900, 1969, 1970, 1972, 1999, 2000, 2001, 2023, 2024, 2038, 2100, 2400,
        9999, 10000, 99999, 262142,
    ];
    for year in years {
        for month in 1..=12 {
            for day in 1..=month_length(year, month) {
                let first = day_number(year, month, day) * 86400;
                let expected = date_text(year, month, day);
                assert_eq!(commit_date(first).as_deref(), Some(expected.as_str()));
                assert_eq!(commit_date(first + 86399).as_deref(), Some(expected.as_str()));
            }
        }
    }
}

#[test]
fn later_days_have_other_dates() {
    let mut last = String::new();
    for day in 0..40000i64 {
        let date = commit_date(day * 86400).unwrap();
        assert!(last < date);
        last = date;
    }
}

#[test]
fn there_are_no_dates_out_of_range() {
    let low = day_number(-262143, 1, 1) * 86400;
    let high = day_number(262143, 1, 1) * 86400;
    assert_eq!(commit_date(low).as_deref(), Some("-262143-01-01"));
    assert_eq!(commit_date(low - 1), None);
    assert_eq!(commit_date(high - 1).as_deref(), Some("+262142-12-31"));
    assert_eq!(commit_date(high), None);
    assert_eq!(commit_date(i64::MAX), None);
    assert_eq!(commit_date(i64::MIN), None);
}
