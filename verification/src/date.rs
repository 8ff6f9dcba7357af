//! Calendar dates without a time of day, kept as day numbers of the proleptic
//! Gregorian calendar (1 January of year 1 is day 1).

use chrono::Datelike;
use chrono::NaiveDate;
use vstd::prelude::*;

verus! {

/// Day number of -262143-01-01, the earliest date the calendar holds.
pub const MIN_DAY_NUMBER: i32 = -95_746_129;

/// Day number of 262142-12-31, the latest date the calendar holds.
pub const MAX_DAY_NUMBER: i32 = 95_745_399;

/// Day number of 1970-01-01, the default date.
pub const EPOCH_DAY_NUMBER: i32 = 719_163;

/// The day number that `chrono` gives to the calendar date `year`-`month`-`day`,
/// or `None` where it holds no such date.
pub uninterp spec fn calendar_day_number(year: i32, month: u32, day: u32) -> Option<i32>;

/// The text that `chrono` writes for the date with this day number under the
/// format `%Y-%m-%d`.
pub uninterp spec fn day_number_text(day_number: i32) -> Seq<char>;

/// Whether a day number lies in the range of dates that the calendar holds.
pub open spec fn is_day_number(n: int) -> bool {
    MIN_DAY_NUMBER <= n <= MAX_DAY_NUMBER
}

/// A calendar date.  Its view is its day number, and dates are ordered as
/// their day numbers are.
#[derive(Clone, Copy, Debug, PartialEq, Eq, Structural, PartialOrd, Ord, Hash)]
pub struct Date {
    days: i32,
}

impl View for Date {
    type V = int;

    closed spec fn view(&self) -> int {
        self.days as int
    }
}

/// Calls `chrono::NaiveDate::from_ymd_opt` and, where it yields a date, takes
/// that date's `num_days_from_ce`.  Trusted: the result is what the name
/// `calendar_day_number` stands for.
#[verifier::external_body]
fn chrono_day_number(year: i32, month: u32, day: u32) -> (r: Option<i32>)
    ensures
        r == calendar_day_number(year, month, day),
{
    match NaiveDate::from_ymd_opt(year, month, day) {
        Some(d) => Some(d.num_days_from_ce()),
        None => None,
    }
}

/// Turns a day number into a `chrono::NaiveDate` with
/// `from_num_days_from_ce_opt` and calls `format("%Y-%m-%d")` on it.  Trusted:
/// every day number from `MIN_DAY_NUMBER` to `MAX_DAY_NUMBER` is a date of
/// `chrono`, and the text written is what `day_number_text` stands for.
#[verifier::external_body]
fn chrono_iso_text(day_number: i32) -> (r: Option<String>)
    ensures
        is_day_number(day_number as int) ==> r is Some,
        r matches Some(s) ==> s@ == day_number_text(day_number),
{
    match NaiveDate::from_num_days_from_ce_opt(day_number) {
        Some(d) => Some(d.format("%Y-%m-%d").to_string()),
        None => None,
    }
}

impl Date {
    #[verifier::type_invariant]
    spec fn in_calendar(self) -> bool {
        is_day_number(self.days as int)
    }

    /// Two dates with the same day number are the same date.
    pub proof fn lemma_view_injective(a: Date, b: Date)
        requires
            a@ == b@,
        ensures
            a == b,
    {
    }

    /// The date with the given day number, if the calendar holds it.
    pub fn from_day_number(n: i32) -> (r: Option<Date>)
        ensures
            is_day_number(n as int) ==> (r matches Some(d) && d@ == n),
            !is_day_number(n as int) ==> r is None,
    {
        if MIN_DAY_NUMBER <= n && n <= MAX_DAY_NUMBER {
            Some(Date { days: n })
        } else {
            None
        }
    }

    /// The day number of this date.
    pub fn day_number(&self) -> (n: i32)
        ensures
            n == self@,
            is_day_number(n as int),
    {
        proof {
            use_type_invariant(self);
        }
        self.days
    }

    /// The date `year`-`month`-`day`, if there is such a date.
    pub fn from_ymd(year: i32, month: u32, day: u32) -> (r: Option<Date>)
        ensures
            match calendar_day_number(year, month, day) {
                Some(n) => if is_day_number(n as int) {
                    r matches Some(d) && d@ == n
                } else {
                    r is None
                },
                None => r is None,
            },
    {
        match chrono_day_number(year, month, day) {
            Some(n) => Date::from_day_number(n),
            None => None,
        }
    }

    /// The date `n` days after this one (before it, for a negative `n`), if
    /// the calendar holds it.
    pub fn plus_days(&self, n: i32) -> (r: Option<Date>)
        ensures
            is_day_number(self@ + n) ==> (r matches Some(d) && d@ == self@ + n),
            !is_day_number(self@ + n) ==> r is None,
    {
        proof {
            use_type_invariant(self);
        }
        let sum: i64 = self.days as i64 + n as i64;
        if MIN_DAY_NUMBER as i64 <= sum && sum <= MAX_DAY_NUMBER as i64 {
            Some(Date { days: sum as i32 })
        } else {
            None
        }
    }

    /// This date written as year, month and day: `2025-03-01`.
    pub fn iso_text(&self) -> (s: String)
        ensures
            s@ == day_number_text(self@ as i32),
    {
        proof {
            use_type_invariant(self);
        }
        match chrono_iso_text(self.days) {
            Some(s) => s,
            None => vstd::pervasive::unreached(),
        }
    }
}

impl Default for Date {
    /// 1 January 1970.
    fn default() -> (d: Date)
        ensures
            d@ == EPOCH_DAY_NUMBER,
    {
        Date { days: EPOCH_DAY_NUMBER }
    }
}

} // verus!
