//! Calendar days as day numbers, and the trailing windows that queries cover.

use vstd::prelude::*;

verus! {

/// How many days a download history covers unless the caller says otherwise.
pub const DEFAULT_WINDOW_DAYS: u32 = 90;

/// A calendar date, held as its day number in the proleptic Gregorian
/// calendar: 0001-01-01 is day 1.
#[derive(Clone, Copy, Debug, PartialEq, Eq, Structural)]
pub struct Day {
    pub ordinal: i32,
}

/// The first day number of the window of `window_days` days that ends on `end`.
pub open spec fn window_start(end: Day, window_days: u32) -> int {
    end.ordinal - window_days + 1
}

/// Whether `day` is one of the `window_days` days that end on `end`.
pub open spec fn in_window(day: Day, end: Day, window_days: u32) -> bool {
    window_start(end, window_days) <= day.ordinal <= end.ordinal
}

/// What a caller-supplied date text stands for: the date it spells, if it
/// spells one.
pub open spec fn parsed_day(text: Seq<char>) -> Option<Day> {
    match iso_date_ordinal(text) {
        Some(ordinal) => Some(Day { ordinal }),
        None => None,
    }
}

/// The end of the window a query asks for: the parsed date, or today where
/// none was given or none could be read.
pub open spec fn day_or_today(parsed: Option<Day>, today: Day) -> Day {
    match parsed {
        Some(day) => day,
        None => today,
    }
}

/// The day number that chrono reads out of `text` under the format `%F`
/// (year, month and day of month, separated by hyphens), or `None` where it
/// reports a parse error.
pub uninterp spec fn iso_date_ordinal(text: Seq<char>) -> Option<i32>;

/// Calls `chrono::NaiveDate::parse_from_str` with the format `%F` and hands
/// the date out as `Datelike::num_days_from_ce`. Nothing is proved of this:
/// the result is taken to be a function of the text alone, named
/// `iso_date_ordinal`.
#[verifier::external_body]
fn parse_iso_ordinal(text: &str) -> (ordinal: Option<i32>)
    ensures
        ordinal == iso_date_ordinal(text@),
{
    match chrono::NaiveDate::parse_from_str(text, "%F") {
        Ok(date) => Some(chrono::Datelike::num_days_from_ce(&date)),
        Err(_) => None,
    }
}

impl Day {
    /// Reads a date in `YYYY-MM-DD` form.
    pub fn parse(text: &str) -> (day: Option<Day>)
        ensures
            day == parsed_day(text@),
    {
        match parse_iso_ordinal(text) {
            Some(ordinal) => Some(Day { ordinal }),
            None => None,
        }
    }

    /// The day itself where one was read, today otherwise.
    pub fn or_today(parsed: Option<Day>, today: Day) -> (day: Day)
        ensures
            day == day_or_today(parsed, today),
    {
        match parsed {
            Some(day) => day,
            None => today,
        }
    }

    /// Whether this day is one of the `window_days` days that end on `end`.
    pub fn within(&self, end: Day, window_days: u32) -> (inside: bool)
        ensures
            inside == in_window(*self, end, window_days),
    {
        let last: i64 = end.ordinal as i64;
        let first: i64 = last - (window_days as i64) + 1;
        let this: i64 = self.ordinal as i64;
        first <= this && this <= last
    }
}

} // verus!
