//! Calendar dates as the history uses them: year, month, day, and the day
//! number that orders them and measures the distance between them.
use crate::text::{all_digits, digits_value, read_digits};
use vstd::prelude::*;

verus! {

pub open spec fn is_leap_year(year: int) -> bool {
    year % 4 == 0 && (year % 100 != 0 || year % 400 == 0)
}

pub open spec fn days_in_month(year: int, month: int) -> int {
    if month == 2 {
        if is_leap_year(year) {
            29
        } else {
            28
        }
    } else if month == 4 || month == 6 || month == 9 || month == 11 {
        30
    } else {
        31
    }
}

/// A day of the proleptic Gregorian calendar within the years -9999..=9999.
pub open spec fn is_calendar_date(year: int, month: int, day: int) -> bool {
    &&& -9999 <= year <= 9999
    &&& 1 <= month <= 12
    &&& 1 <= day <= days_in_month(year, month)
}

/// The Julian day number of a calendar date.
pub uninterp spec fn julian_day_of(year: int, month: int, day: int) -> int;

/// Relies on `time::Month::try_from`, `time::Date::from_calendar_date` and
/// `time::Date::to_julian_day`: a date is built exactly when the month is in
/// 1..=12 and the day exists in that month of that year (years -9999..=9999),
/// and its Julian day number depends on year, month and day alone.
#[verifier::external_body]
fn calendar_julian_day(year: i32, month: u8, day: u8) -> (r: Option<i32>)
    ensures
        r.is_some() == is_calendar_date(year as int, month as int, day as int),
        r.is_some() ==> r.unwrap() as int == julian_day_of(year as int, month as int, day as int),
{
    let month = time::Month::try_from(month).ok()?;
    time::Date::from_calendar_date(year, month, day).ok().map(|d| d.to_julian_day())
}

/// A calendar date. Dates compare by their day number.
#[derive(Clone, Copy, Debug, PartialEq, Eq, Structural)]
pub struct Date {
    year: i32,
    month: u8,
    day: u8,
    julian: i32,
}

/// The date with the given year, month and day, when it exists.
pub closed spec fn spec_date(year: int, month: int, day: int) -> Option<Date> {
    if is_calendar_date(year, month, day) {
        Some(
            Date {
                year: year as i32,
                month: month as u8,
                day: day as u8,
                julian: julian_day_of(year, month, day) as i32,
            },
        )
    } else {
        None
    }
}

impl Date {
    pub closed spec fn spec_year(self) -> int {
        self.year as int
    }

    pub closed spec fn spec_month(self) -> int {
        self.month as int
    }

    pub closed spec fn spec_day(self) -> int {
        self.day as int
    }

    /// The Julian day number: one more for each following day.
    pub closed spec fn day_number(self) -> int {
        self.julian as int
    }

    /// The date with the given year, month and day, or `None` where no such day exists.
    pub fn from_calendar_date(year: i32, month: u8, day: u8) -> (r: Option<Date>)
        ensures
            r == spec_date(year as int, month as int, day as int),
            r.is_some() == is_calendar_date(year as int, month as int, day as int),
            r.is_some() ==> r.unwrap().spec_year() == year && r.unwrap().spec_month() == month
                && r.unwrap().spec_day() == day && r.unwrap().day_number() == julian_day_of(
                year as int,
                month as int,
                day as int,
            ),
    {
        match calendar_julian_day(year, month, day) {
            Some(julian) => Some(Date { year, month, day, julian }),
            None => None,
        }
    }

    pub fn year(&self) -> (r: i32)
        ensures
            r == self.spec_year(),
    {
        self.year
    }

    pub fn month(&self) -> (r: u8)
        ensures
            r == self.spec_month(),
    {
        self.month
    }

    pub fn day(&self) -> (r: u8)
        ensures
            r == self.spec_day(),
    {
        self.day
    }

    pub fn julian_day(&self) -> (r: i32)
        ensures
            r == self.day_number(),
    {
        self.julian
    }
}

/// The date written `MM/DD/YYYY`, two digits of month, two of day, four of year.
pub open spec fn date_of_text(s: Seq<char>) -> Option<Date> {
    if s.len() == 10 && s[2] == '/' && s[5] == '/' && all_digits(s.subrange(0, 2))
        && all_digits(s.subrange(3, 5)) && all_digits(s.subrange(6, 10)) {
        spec_date(
            digits_value(s.subrange(6, 10)),
            digits_value(s.subrange(0, 2)),
            digits_value(s.subrange(3, 5)),
        )
    } else {
        None
    }
}

/// Reads a `MM/DD/YYYY` date from `s[start..end]`.
pub fn parse_date(s: &Vec<char>, start: usize, end: usize) -> (r: Option<Date>)
    requires
        start <= end <= s@.len(),
    ensures
        r == date_of_text(s@.subrange(start as int, end as int)),
{
    let ghost t = s@.subrange(start as int, end as int);
    if end - start != 10 || s[start + 2] != '/' || s[start + 5] != '/' {
        return None;
    }
    assert(t.subrange(0, 2) =~= s@.subrange(start as int, start + 2));
    assert(t.subrange(3, 5) =~= s@.subrange(start + 3, start + 5));
    assert(t.subrange(6, 10) =~= s@.subrange(start + 6, start + 10));
    let month = read_digits(s, start, start + 2);
    let day = read_digits(s, start + 3, start + 5);
    let year = read_digits(s, start + 6, start + 10);
    match (month, day, year) {
        (Some(m), Some(d), Some(y)) => {
            proof {
                crate::text::lemma_digits_value_bound(t.subrange(0, 2));
                crate::text::lemma_digits_value_bound(t.subrange(3, 5));
                crate::text::lemma_digits_value_bound(t.subrange(6, 10));
                reveal_with_fuel(crate::text::pow10, 5);
            }
            Date::from_calendar_date(y as i32, m as u8, d as u8)
        },
        _ => None,
    }
}

} // verus!
