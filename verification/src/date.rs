//! Dates of the Gregorian calendar.
use chrono::{TimeZone, Utc};
use vstd::prelude::*;

use crate::text::{
    digit_char, digits_value, int_text, is_digit, leading_digits, lemma_leading_digits, nat_text,
};

verus! {

pub open spec fn is_leap(year: int) -> bool {
    year % 4 == 0 && (year % 100 != 0 || year % 400 == 0)
}

pub open spec fn days_in_month(year: int, month: int) -> int {
    if month == 2 {
        if is_leap(year) {
            29
        } else {
            28
        }
    } else if month == 4 || month == 6 || month == 9 || month == 11 {
        30
    } else {
        31
    }
}

/// The days of a year before the first of a month.
pub open spec fn days_before_month(year: int, month: int) -> int
    decreases month,
{
    if month <= 1 {
        0
    } else {
        days_before_month(year, month - 1) + days_in_month(year, month - 1)
    }
}

/// The days from the first of January of year 0 to the first of January of a year.
pub open spec fn days_before_year(year: int) -> int {
    365 * year + (year + 3) / 4 - (year + 99) / 100 + (year + 399) / 400
}

/// A day of the calendar. The year 0 is the one before the year 1.
pub struct Date {
    pub year: int,
    pub month: int,
    pub day: int,
}

impl Date {
    pub open spec fn valid(self) -> bool {
        1 <= self.month <= 12 && 1 <= self.day <= days_in_month(self.year, self.month)
    }

    /// The days from the first of January 1970 to this one.
    pub open spec fn day_number(self) -> int {
        days_before_year(self.year) + days_before_month(self.year, self.month) + self.day - 1
            - 719528
    }
}

/// The text of a number with zeros before it, up to a length.
pub open spec fn padded(n: nat, len: nat) -> Seq<char>
    decreases len,
{
    if len == 0 {
        Seq::empty()
    } else {
        padded(n / 10, (len - 1) as nat).push(digit_char((n % 10) as int))
    }
}

/// At least four digits; a year of more than four, and one before the year 0, has a sign.
pub open spec fn year_text(year: int) -> Seq<char> {
    if 0 <= year <= 9999 {
        padded(year as nat, 4)
    } else if year > 9999 {
        "+"@ + nat_text(year as nat)
    } else if year >= -9999 {
        "-"@ + padded((-year) as nat, 4)
    } else {
        "-"@ + nat_text((-year) as nat)
    }
}

/// Year, month and day, with hyphens between them.
pub open spec fn date_text(d: Date) -> Seq<char> {
    year_text(d.year) + "-"@ + padded(d.month as nat, 2) + "-"@ + padded(d.day as nat, 2)
}

/// The first and the last year that dates are given for.
pub open spec fn year_in_range(year: int) -> bool {
    -262143 <= year <= 262142
}

/// Whether `d` is the date on which the second `secs` after the start of 1970 falls, in UTC.
pub open spec fn date_of_second(d: Date, secs: int) -> bool {
    d.valid() && d.day_number() == secs / 86400
}

/// The text of the date on which a second falls, if it is in range.
pub open spec fn utc_date(secs: int) -> Option<Seq<char>> {
    if exists|d: Date| date_of_second(d, secs) && year_in_range(d.year) {
        Some(date_text(choose|d: Date| date_of_second(d, secs) && year_in_range(d.year)))
    } else {
        None
    }
}

/// Calls `TimeZone::timestamp_opt` of `chrono::Utc`, then `MappedLocalTime::single`,
/// `DateTime::format` and `to_string`. What is claimed of them, for this format and no part of a
/// second: the result is the date in UTC, in the Gregorian calendar, of the second that lies
/// `secs` seconds after the start of 1970; and there is none where the date's year is out of
/// range.
#[verifier::external_body]
pub(crate) fn format_utc(secs: i64, nanos: u32, format: &str) -> (r: Option<String>)
    requires
        nanos == 0,
        format@ == "%Y-%m-%d"@,
    ensures
        utc_date(secs as int) == (match r {
            Some(t) => Some(t@),
            None => None,
        }),
{
    let time = Utc.timestamp_opt(secs, nanos).single()?;
    Some(time.format(format).to_string())
}

/// The date of a commit time, in UTC, if there is one.
pub fn commit_date(ctime: i64) -> (r: Option<String>)
    ensures
        utc_date(ctime as int) == (match r {
            Some(t) => Some(t@),
            None => None,
        }),
{
    format_utc(ctime, 0, "%Y-%m-%d")
}

/// Months before a month of the same year end before it.
proof fn lemma_months(year: int, a: int, b: int)
    requires
        1 <= a < b <= 13,
    ensures
        0 <= days_before_month(year, a),
        days_before_month(year, a) + days_in_month(year, a) <= days_before_month(year, b),
{
    reveal_with_fuel(days_before_month, 14);
}

/// A year has 365 days, or 366 when it is a leap year.
proof fn lemma_year_length(year: int)
    ensures
        days_before_year(year + 1) - days_before_year(year) == days_before_month(year, 13),
        days_before_month(year, 13) == (if is_leap(year) {
            366int
        } else {
            365int
        }),
{
    reveal_with_fuel(days_before_month, 14);
}

/// Years before a year end before it.
proof fn lemma_years(a: int, b: int)
    requires
        a < b,
    ensures
        days_before_year(a) + days_before_month(a, 13) <= days_before_year(b),
    decreases b - a,
{
    lemma_year_length(a);
    if a + 1 < b {
        lemma_years(a + 1, b);
        lemma_year_length(a + 1);
    }
}

/// An earlier date has a lower day number.
pub proof fn law_dates_are_ordered(a: Date, b: Date)
    requires
        a.valid(),
        b.valid(),
        a.year < b.year || (a.year == b.year && (a.month < b.month || (a.month == b.month && a.day
            < b.day))),
    ensures
        a.day_number() < b.day_number(),
{
    lemma_months(a.year, a.month, 13);
    if b.month > 1 {
        lemma_months(b.year, 1, b.month);
    }
    if a.year < b.year {
        lemma_years(a.year, b.year);
    } else if a.month < b.month {
        lemma_months(a.year, a.month, b.month);
    }
}

/// A second falls on one date only, and the text of that date is what is given for it.
pub proof fn law_one_date(d: Date, secs: int)
    requires
        date_of_second(d, secs),
        year_in_range(d.year),
    ensures
        utc_date(secs) == Some(date_text(d)),
{
    let e = choose|e: Date| date_of_second(e, secs) && year_in_range(e.year);
    assert(date_of_second(e, secs) && year_in_range(e.year));
    if d != e {
        if d.year < e.year || (d.year == e.year && (d.month < e.month || (d.month == e.month
            && d.day < e.day))) {
            law_dates_are_ordered(d, e);
        } else {
            law_dates_are_ordered(e, d);
        }
    }
}

/// All seconds of a day have the same date.
pub proof fn law_one_date_a_day(a: int, b: int)
    requires
        a / 86400 == b / 86400,
    ensures
        utc_date(a) == utc_date(b),
{
    assert forall|d: Date| date_of_second(d, a) == date_of_second(d, b) by {}
    if exists|d: Date| date_of_second(d, a) && year_in_range(d.year) {
        let d = choose|d: Date| date_of_second(d, a) && year_in_range(d.year);
        assert(date_of_second(d, b));
        law_one_date(d, a);
        law_one_date(d, b);
    } else {
        assert forall|d: Date| !(date_of_second(d, b) && year_in_range(d.year)) by {
            assert(date_of_second(d, a) == date_of_second(d, b));
        }
    }
}

/// The day after a date.
proof fn lemma_next_day(d: Date) -> (e: Date)
    requires
        d.valid(),
    ensures
        e.valid(),
        e.day_number() == d.day_number() + 1,
{
    if d.day < days_in_month(d.year, d.month) {
        Date { day: d.day + 1, ..d }
    } else if d.month < 12 {
        Date { month: d.month + 1, day: 1, ..d }
    } else {
        lemma_year_length(d.year);
        assert(days_before_month(d.year, 13) == days_before_month(d.year, 12) + days_in_month(
            d.year,
            12,
        ));
        Date { year: d.year + 1, month: 1, day: 1 }
    }
}

/// The day before a date.
proof fn lemma_day_before(d: Date) -> (e: Date)
    requires
        d.valid(),
    ensures
        e.valid(),
        e.day_number() == d.day_number() - 1,
{
    if d.day > 1 {
        Date { day: d.day - 1, ..d }
    } else if d.month > 1 {
        Date { month: d.month - 1, day: days_in_month(d.year, d.month - 1), ..d }
    } else {
        lemma_year_length(d.year - 1);
        assert(days_before_month(d.year - 1, 13) == days_before_month(d.year - 1, 12)
            + days_in_month(d.year - 1, 12));
        Date { year: d.year - 1, month: 12, day: 31 }
    }
}

/// Every day number is the number of a date.
proof fn lemma_every_day(n: int) -> (d: Date)
    ensures
        d.valid(),
        d.day_number() == n,
    decreases (if n < 0 {
        -n
    } else {
        n
    }),
{
    if n == 0 {
        Date { year: 1970, month: 1, day: 1 }
    } else if n > 0 {
        let before = lemma_every_day(n - 1);
        lemma_next_day(before)
    } else {
        let after = lemma_every_day(n + 1);
        lemma_day_before(after)
    }
}

/// A date is given for the seconds of the years in range, and for no other.
pub proof fn law_dates_in_range(secs: int)
    ensures
        utc_date(secs) is Some <==> -96465292 <= secs / 86400 < 95026237,
{
    let n = secs / 86400;
    let low = Date { year: -262143, month: 1, day: 1 };
    let high = Date { year: 262143, month: 1, day: 1 };
    let d = lemma_every_day(n);
    assert(date_of_second(d, secs));
    assert(low.day_number() == -96465292);
    assert(high.day_number() == 95026237);
    if d.year < low.year {
        law_dates_are_ordered(d, low);
    } else if d != low {
        law_dates_are_ordered(low, d);
    }
    if d.year < high.year {
        law_dates_are_ordered(d, high);
    } else if d != high {
        law_dates_are_ordered(high, d);
    }
    if year_in_range(d.year) {
        law_one_date(d, secs);
    } else {
        assert forall|e: Date| !(date_of_second(e, secs) && year_in_range(e.year)) by {
            if date_of_second(e, secs) && year_in_range(e.year) {
                if d.year < e.year {
                    law_dates_are_ordered(d, e);
                } else {
                    law_dates_are_ordered(e, d);
                }
            }
        }
    }
}

/// How long the months are: February has a day more in a year that 4 divides, unless 100 divides
/// it and 400 does not.
pub proof fn law_month_lengths(year: int, month: int)
    requires
        1 <= month <= 12,
    ensures
        month == 2 && year % 4 != 0 ==> days_in_month(year, month) == 28,
        month == 2 && year % 4 == 0 && year % 100 != 0 ==> days_in_month(year, month) == 29,
        month == 2 && year % 100 == 0 && year % 400 != 0 ==> days_in_month(year, month) == 28,
        month == 2 && year % 400 == 0 ==> days_in_month(year, month) == 29,
        month == 4 || month == 6 || month == 9 || month == 11 ==> days_in_month(year, month) == 30,
        month == 1 || month == 3 || month == 5 || month == 7 || month == 8 || month == 10 || month
            == 12 ==> days_in_month(year, month) == 31,
{
}

/// Days are counted from the first of January 1970, and each day has the number behind that of
/// the day before it.
pub proof fn law_days_are_counted(d: Date)
    requires
        d.valid(),
    ensures
        d.year == 1970 && d.month == 1 && d.day == 1 ==> d.day_number() == 0,
        d.day < days_in_month(d.year, d.month) ==> (Date { day: d.day + 1, ..d }).day_number()
            == d.day_number() + 1,
        d.day == days_in_month(d.year, d.month) && d.month < 12 ==> (Date {
            month: d.month + 1,
            day: 1,
            ..d
        }).day_number() == d.day_number() + 1,
        d.day == days_in_month(d.year, d.month) && d.month == 12 ==> (Date {
            year: d.year + 1,
            month: 1,
            day: 1,
        }).day_number() == d.day_number() + 1,
{
    lemma_year_length(d.year);
    assert(days_before_month(d.year, 13) == days_before_month(d.year, 12) + days_in_month(
        d.year,
        12,
    ));
}

/// What stands in a date's text: the year, a hyphen, the two digits of the month, a hyphen, and
/// the two digits of the day. The year has four digits; one that needs more, or that is before
/// the year 0, has a sign.
pub proof fn law_date_text(d: Date)
    requires
        d.valid(),
    ensures
        ({
            let text = date_text(d);
            let end = text.len() - 6;
            &&& end >= 4
            &&& text[end] == '-'
            &&& 10 * (text[end + 1] as int - '0' as int) + (text[end + 2] as int - '0' as int)
                == d.month
            &&& '0' <= text[end + 1] && text[end + 1] <= '9'
            &&& '0' <= text[end + 2] && text[end + 2] <= '9'
            &&& text[end + 3] == '-'
            &&& 10 * (text[end + 4] as int - '0' as int) + (text[end + 5] as int - '0' as int)
                == d.day
            &&& '0' <= text[end + 4] && text[end + 4] <= '9'
            &&& '0' <= text[end + 5] && text[end + 5] <= '9'
            &&& 0 <= d.year <= 9999 ==> end == 4 && digits_value(text.take(4)) == d.year
                && leading_digits(text) == text.take(4)
            &&& d.year > 9999 ==> text.take(end) == seq!['+'] + int_text(d.year)
            &&& -9999 <= d.year < 0 ==> end == 5 && text[0] == '-' && digits_value(
                text.subrange(1, 5),
            ) == -d.year && leading_digits(text.skip(1)) == text.subrange(1, 5)
            &&& d.year < -9999 ==> text.take(end) == int_text(d.year)
        }),
{
    reveal_strlit("-");
    reveal_strlit("+");
    let text = date_text(d);
    let year = year_text(d.year);
    let month = padded(d.month as nat, 2);
    let day = padded(d.day as nat, 2);
    lemma_two_digits(d.month as nat);
    lemma_two_digits(d.day as nat);
    assert(text == year + "-"@ + month + "-"@ + day);
    let end = year.len() as int;
    assert(text[end] == '-');
    assert(text[end + 1] == month[0]);
    assert(text[end + 2] == month[1]);
    assert(text[end + 3] == '-');
    assert(text[end + 4] == day[0]);
    assert(text[end + 5] == day[1]);
    assert(text.take(end) =~= year);
    assert("-"@ =~= seq!['-']);
    assert("+"@ =~= seq!['+']);
    if 0 <= d.year <= 9999 {
        lemma_four_digits(d.year as nat);
        assert forall|i: int| 0 <= i < 4 implies is_digit(#[trigger] text[i]) by {
            assert(text[i] == year[i]);
        }
        lemma_leading_digits(text, 4);
    } else if -9999 <= d.year < 0 {
        let digits = padded((-d.year) as nat, 4);
        lemma_four_digits((-d.year) as nat);
        let rest = text.skip(1);
        assert(text.subrange(1, 5) =~= digits);
        assert(rest.take(4) =~= digits);
        assert forall|i: int| 0 <= i < 4 implies is_digit(#[trigger] rest[i]) by {
            assert(rest[i] == digits[i]);
        }
        assert(rest[4] == text[5]);
        lemma_leading_digits(rest, 4);
        assert(text[0] == year[0]);
    } else {
        lemma_long_text(if d.year < 0 {
            (-d.year) as nat
        } else {
            d.year as nat
        });
    }
}

/// A number of five digits or more has more than four digits.
proof fn lemma_long_text(n: nat)
    requires
        n > 9999,
    ensures
        nat_text(n).len() > 4,
{
    reveal_with_fuel(nat_text, 6);
}

proof fn lemma_two_digits(n: nat)
    requires
        n < 100,
    ensures
        padded(n, 2).len() == 2,
        is_digit(padded(n, 2)[0]),
        is_digit(padded(n, 2)[1]),
        10 * (padded(n, 2)[0] as int - '0' as int) + (padded(n, 2)[1] as int - '0' as int) == n,
{
    reveal_with_fuel(padded, 3);
}

proof fn lemma_four_digits(n: nat)
    requires
        n < 10000,
    ensures
        padded(n, 4).len() == 4,
        forall|i: int| 0 <= i < 4 ==> is_digit(#[trigger] padded(n, 4)[i]),
        digits_value(padded(n, 4)) == n,
{
    reveal_with_fuel(padded, 5);
    reveal_with_fuel(digits_value, 5);
    let s4 = padded(n, 4);
    let s3 = padded(n / 10, 3);
    let s2 = padded(n / 10 / 10, 2);
    let s1 = padded(n / 10 / 10 / 10, 1);
    let s0 = padded(n / 10 / 10 / 10 / 10, 0);
    assert(s4.drop_last() =~= s3);
    assert(s3.drop_last() =~= s2);
    assert(s2.drop_last() =~= s1);
    assert(s1.drop_last() =~= s0);
    assert(digits_value(s1) == n / 10 / 10 / 10);
    assert(digits_value(s2) == n / 10 / 10);
    assert(digits_value(s3) == n / 10);
}

/// The date of a second is that of the day on which it falls, counted in days of 86400 seconds.
pub proof fn law_date_of_second(d: Date, secs: int)
    requires
        1 <= d.month <= 12,
        1 <= d.day <= days_in_month(d.year, d.month),
        -262143 <= d.year <= 262142,
        86400 * d.day_number() <= secs < 86400 * (d.day_number() + 1),
    ensures
        utc_date(secs) == Some(date_text(d)),
{
    law_one_date(d, secs);
}

} // verus!
