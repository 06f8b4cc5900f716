//! Calendar times: Unix seconds as RFC 3339 UTC text.

use vstd::prelude::*;

use crate::text;
use crate::text::{decimal_of, digit_of};

verus! {

// -- The calendar -----------------------------------------------------------

/// True for a leap year.
pub open spec fn is_leap(year: int) -> bool {
    year % 4 == 0 && (year % 100 != 0 || year % 400 == 0)
}

/// How many days a year has.
pub open spec fn year_length(year: int) -> int {
    if is_leap(year) {
        366
    } else {
        365
    }
}

/// How many days a month has.
pub open spec fn month_length(year: int, month: int) -> int {
    if month == 2 {
        if is_leap(year) {
            29
        } else {
            28
        }
    } else if month == 4 || month == 6 || month == 9 || month == 11 {
        30
    } else {
        31
    }
}

/// How many days the years from 0 up to `year` have.
pub open spec fn days_before_year(year: int) -> int {
    365 * year + (year + 3) / 4 - (year + 99) / 100 + (year + 399) / 400
}

/// The years follow each other without a gap.
proof fn lemma_year_length(year: int)
    requires
        0 <= year,
    ensures
        days_before_year(year + 1) == days_before_year(year) + year_length(year),
{
    assert((year + 4) / 4 == (year + 3) / 4 + (if year % 4 == 0 {
        1int
    } else {
        0
    }));
    assert((year + 100) / 100 == (year + 99) / 100 + (if year % 100 == 0 {
        1int
    } else {
        0
    }));
    assert((year + 400) / 400 == (year + 399) / 400 + (if year % 400 == 0 {
        1int
    } else {
        0
    }));
    assert(year % 400 == 0 ==> year % 100 == 0);
    assert(year % 100 == 0 ==> year % 4 == 0);
}

/// Four hundred years always have the same number of days.
proof fn lemma_era(year: int, eras: int)
    requires
        0 <= year,
        0 <= eras,
    ensures
        days_before_year(year + 400 * eras) == days_before_year(year) + 146097 * eras,
{
    assert((year + 400 * eras + 3) / 4 == (year + 3) / 4 + 100 * eras);
    assert((year + 400 * eras + 99) / 100 == (year + 99) / 100 + 4 * eras);
    assert((year + 400 * eras + 399) / 400 == (year + 399) / 400 + eras);
}

/// The year that holds `day`, counted from the start of year 0, searched
/// from `year` on.
pub open spec fn year_from(day: int, year: int) -> int
    decreases day - days_before_year(year),
    via year_from_ends
{
    if year < 0 || day < days_before_year(year + 1) {
        year
    } else {
        year_from(day, year + 1)
    }
}

#[via_fn]
proof fn year_from_ends(day: int, year: int) {
    if year >= 0 {
        lemma_year_length(year);
    }
}

proof fn lemma_years_ascend(a: int, b: int)
    requires
        0 <= a <= b,
    ensures
        days_before_year(a) <= days_before_year(b),
        a < b ==> days_before_year(a + 1) <= days_before_year(b),
    decreases b - a,
{
    if a < b {
        lemma_year_length(a);
        lemma_years_ascend(a + 1, b);
    }
}

/// The year found holds the day.
proof fn lemma_year_from(day: int, year: int)
    requires
        0 <= year,
        days_before_year(year) <= day,
    ensures
        year <= year_from(day, year),
        days_before_year(year_from(day, year)) <= day < days_before_year(
            year_from(day, year) + 1,
        ),
    decreases day - days_before_year(year),
{
    lemma_year_length(year);
    if day >= days_before_year(year + 1) {
        lemma_year_from(day, year + 1);
    }
}

/// The search may start at any year that does not lie behind the day.
proof fn lemma_year_skip(day: int, year: int, later: int)
    requires
        0 <= year <= later,
        days_before_year(later) <= day,
    ensures
        year_from(day, year) == year_from(day, later),
    decreases later - year,
{
    if year < later {
        lemma_years_ascend(year, later);
        lemma_year_skip(day, year + 1, later);
    }
}

/// How many days the months of a year before `month` have.
pub open spec fn days_before_month(year: int, month: int) -> int
    decreases month,
{
    if month <= 1 {
        0
    } else {
        days_before_month(year, month - 1) + month_length(year, month - 1)
    }
}

/// The months of a year have as many days as the year.
proof fn lemma_months(year: int)
    ensures
        days_before_month(year, 13) == year_length(year),
{
    reveal_with_fuel(days_before_month, 14);
}

proof fn lemma_months_ascend(year: int, a: int, b: int)
    requires
        1 <= a <= b,
    ensures
        days_before_month(year, a) <= days_before_month(year, b),
        a < b ==> days_before_month(year, a + 1) <= days_before_month(year, b),
    decreases b - a,
{
    if a < b {
        lemma_months_ascend(year, a, b - 1);
    }
}

/// The month that holds the zero-based `day` of the year's rest from
/// `month` on, and the zero-based day in it.
pub open spec fn month_from(year: int, month: int, day: int) -> (int, int)
    decreases 12 - month,
{
    if month >= 12 || day < month_length(year, month) {
        (month, day)
    } else {
        month_from(year, month + 1, day - month_length(year, month))
    }
}

/// The month found holds the day.
proof fn lemma_month_from(year: int, month: int, day: int)
    requires
        1 <= month <= 12,
        0 <= day,
        days_before_month(year, month) + day < year_length(year),
    ensures
        ({
            let (found, rest) = month_from(year, month, day);
            &&& month <= found <= 12
            &&& 0 <= rest < month_length(year, found)
            &&& days_before_month(year, found) + rest == days_before_month(year, month) + day
        }),
    decreases 12 - month,
{
    lemma_months(year);
    if month < 12 {
        assert(days_before_month(year, month + 1) == days_before_month(year, month)
            + month_length(year, month));
        if day >= month_length(year, month) {
            lemma_month_from(year, month + 1, day - month_length(year, month));
        }
    } else {
        assert(days_before_month(year, 13) == days_before_month(year, 12) + month_length(year, 12));
    }
}

/// A date of the calendar.
#[derive(Clone, Copy, Debug, PartialEq, Eq, Structural)]
pub struct Date {
    pub year: u64,
    pub month: u64,
    pub day: u64,
}

/// The date of a day, counted from 1970-01-01.
pub open spec fn date_on(days: int) -> (int, int, int) {
    let day = days + days_before_year(1970);
    let year = year_from(day, 1970);
    let (month, rest) = month_from(year, 1, day - days_before_year(year));
    (year, month, rest + 1)
}

/// How many days lie between the start of year 0 and a date.
pub open spec fn day_number(year: int, month: int, day: int) -> int {
    days_before_year(year) + days_before_month(year, month) + day - 1
}

/// The date of a day is in the calendar, and counting its days gives the
/// day back.
pub proof fn law_dates_count_back(days: int)
    requires
        0 <= days,
    ensures
        ({
            let (year, month, day) = date_on(days);
            &&& 1970 <= year
            &&& 1 <= month <= 12
            &&& 1 <= day <= month_length(year, month)
            &&& day_number(year, month, day) == days + day_number(1970, 1, 1)
        }),
{
    let day = days + days_before_year(1970);
    let year = year_from(day, 1970);
    lemma_year_from(day, 1970);
    lemma_year_length(year);
    lemma_month_from(year, 1, day - days_before_year(year));
}

/// A year has at least 365 days, so the days bound the year.
pub proof fn lemma_year_bound(days: int)
    requires
        0 <= days,
    ensures
        365 * date_on(days).0 <= days + days_before_year(1970),
{
    let day = days + days_before_year(1970);
    lemma_year_from(day, 1970);
    let year = year_from(day, 1970);
    assert((year + 3) / 4 >= (year + 99) / 100);
    assert((year + 399) / 400 >= 0);
}

/// True when the first date comes before the second.
pub open spec fn comes_before(a: (int, int, int), b: (int, int, int)) -> bool {
    a.0 < b.0 || (a.0 == b.0 && (a.1 < b.1 || (a.1 == b.1 && a.2 < b.2)))
}

/// A later day has a later date.
pub proof fn law_later_days_have_later_dates(earlier: int, later: int)
    requires
        0 <= earlier < later,
    ensures
        comes_before(date_on(earlier), date_on(later)),
{
    law_dates_count_back(earlier);
    law_dates_count_back(later);
    let (y1, m1, d1) = date_on(earlier);
    let (y2, m2, d2) = date_on(later);
    lemma_days_in_year(y1, m1, d1);
    lemma_days_in_year(y2, m2, d2);
    if y2 < y1 {
        lemma_years_ascend(y2, y1);
    } else if y1 == y2 && m2 < m1 {
        lemma_months_ascend(y1, m2, m1);
    }
}

proof fn lemma_days_in_year(year: int, month: int, day: int)
    requires
        0 <= year,
        1 <= month <= 12,
        1 <= day <= month_length(year, month),
    ensures
        days_before_year(year) <= day_number(year, month, day) < days_before_year(year + 1),
        day_number(year, month, day) < days_before_year(year) + days_before_month(year, month + 1),
{
    lemma_year_length(year);
    lemma_months(year);
    lemma_months_ascend(year, 1, month);
    lemma_months_ascend(year, month, 13);
}

fn leap(year: u64) -> (r: bool)
    ensures
        r == is_leap(year as int),
{
    year % 4 == 0 && (year % 100 != 0 || year % 400 == 0)
}

fn length_of_month(year: u64, month: u64) -> (r: u64)
    ensures
        r == month_length(year as int, month as int),
        28 <= r <= 31,
{
    if month == 2 {
        if leap(year) {
            29
        } else {
            28
        }
    } else if month == 4 || month == 6 || month == 9 || month == 11 {
        30
    } else {
        31
    }
}

/// The latest day that a count of seconds reaches.
pub const LATEST_DAY: u64 = 213503982334601;

/// The date of a day, counted from 1970-01-01.
pub fn date_of(days: u64) -> (r: Date)
    requires
        days <= LATEST_DAY,
    ensures
        (r.year as int, r.month as int, r.day as int) == date_on(days as int),
{
    let eras: u64 = days / 146097;
    let ghost number = days + days_before_year(1970);
    let mut year: u64 = 1970 + 400 * eras;
    let mut rest: u64 = days % 146097;
    proof {
        lemma_era(1970, eras as int);
        lemma_year_skip(number, 1970, year as int);
    }
    let mut length: u64 = if leap(year) {
        366
    } else {
        365
    };
    while rest >= length
        invariant
            1970 <= year <= 1970 + 400 * eras + 146097 - rest,
            eras <= LATEST_DAY / 146097,
            rest < 146097,
            number == days_before_year(year as int) + rest,
            length == year_length(year as int),
            year_from(number, 1970) == year_from(number, year as int),
        decreases rest,
    {
        proof {
            lemma_year_length(year as int);
        }
        rest -= length;
        year += 1;
        length = if leap(year) {
            366
        } else {
            365
        };
    }
    proof {
        lemma_year_length(year as int);
    }
    let mut month: u64 = 1;
    let mut size: u64 = 31;
    while month < 12 && rest >= size
        invariant
            1 <= month <= 12,
            rest < 366,
            size == month_length(year as int, month as int),
            size >= 28,
            month_from(year as int, 1, number - days_before_year(year as int)) == month_from(
                year as int,
                month as int,
                rest as int,
            ),
        decreases 12 - month,
    {
        rest -= size;
        month += 1;
        size = length_of_month(year, month);
    }
    Date { year, month, day: rest + 1 }
}

// -- Text -------------------------------------------------------------------

/// A moment of the calendar, in whole seconds.
pub struct Moment {
    pub year: int,
    pub month: int,
    pub day: int,
    pub hour: int,
    pub minute: int,
    pub second: int,
}

/// The moment of a count of seconds since 1970-01-01 at midnight.
pub open spec fn moment_at(seconds: int) -> Moment {
    let (year, month, day) = date_on(seconds / 86400);
    Moment {
        year,
        month,
        day,
        hour: seconds % 86400 / 3600,
        minute: seconds % 3600 / 60,
        second: seconds % 60,
    }
}

/// The digit for the tens of a number below a hundred.
pub open spec fn tens(n: int) -> char {
    text::digit_char((n / 10) as nat)
}

/// The digit for the ones of a number.
pub open spec fn ones(n: int) -> char {
    text::digit_char((n % 10) as nat)
}

/// What follows the year in a time, with `separator` in the clock.
pub open spec fn behind_year(at: Moment, separator: char) -> Seq<char> {
    seq![
        '-',
        tens(at.month),
        ones(at.month),
        '-',
        tens(at.day),
        ones(at.day),
        'T',
        tens(at.hour),
        ones(at.hour),
        separator,
        tens(at.minute),
        ones(at.minute),
        separator,
        tens(at.second),
        ones(at.second),
        'Z',
    ]
}

/// A time like `2001-09-09T01:46:40Z`, with `separator` in the clock.
pub open spec fn time_text(at: Moment, separator: char) -> Seq<char> {
    text::decimal(at.year as nat) + behind_year(at, separator)
}

fn push_two(out: &mut String, n: u64)
    requires
        n < 100,
    ensures
        final(out)@ == old(out)@.push(tens(n as int)).push(ones(n as int)),
{
    out.push(digit_of((n / 10) as u128));
    out.push(digit_of((n % 10) as u128));
}

/// `unix_seconds` as an RFC 3339 UTC time.
pub fn rfc3339(unix_seconds: u64) -> (r: String)
    ensures
        r@ == time_text(moment_at(unix_seconds as int), ':'),
{
    let date = date_of(unix_seconds / 86400);
    proof {
        law_dates_count_back(unix_seconds as int / 86400);
    }
    let ghost at = moment_at(unix_seconds as int);
    let mut r = decimal_of(date.year as u128);
    let ghost year = r@;
    r.push('-');
    push_two(&mut r, date.month);
    r.push('-');
    push_two(&mut r, date.day);
    r.push('T');
    push_two(&mut r, unix_seconds % 86400 / 3600);
    r.push(':');
    push_two(&mut r, unix_seconds % 3600 / 60);
    r.push(':');
    push_two(&mut r, unix_seconds % 60);
    r.push('Z');
    assert(r@ =~= year + behind_year(at, ':'));
    r
}

} // verus!
