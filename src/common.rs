use chrono::Datelike;
use vstd::prelude::*;

verus! {

/// A calendar date, held as the number of days since 0001-01-01
/// (that day is day 1) in the proleptic Gregorian calendar.
#[derive(Clone, Copy, Debug, PartialEq, Eq, Structural, PartialOrd, Ord, Hash)]
pub struct Date {
    pub days: i32,
}

/// Whether `year` is a Gregorian leap year.
pub open spec fn is_leap(year: int) -> bool {
    year % 4 == 0 && (year % 100 != 0 || year % 400 == 0)
}

/// The number of days of a month (1-12) of a year.
pub open spec fn month_len(year: int, month: int) -> int {
    if month == 2 {
        if is_leap(year) {
            29
        } else {
            28
        }
    } else if month == 4 || month == 6 || month == 9 || month == 11 {
        30
    } else {
        31
    }
}

/// The number of days of a year before the first of `month`.
pub open spec fn days_before_month(year: int, month: int) -> int
    decreases month,
{
    if month <= 1 {
        0
    } else {
        days_before_month(year, month - 1) + month_len(year, month - 1)
    }
}

/// The day number of a Gregorian date whose year lies in -262143..=262142,
/// or `None` for a date that does not exist or lies outside those years.
pub open spec fn ce_day_of(year: int, month: int, day: int) -> Option<int> {
    if -262143 <= year <= 262142 && 1 <= month <= 12 && 1 <= day <= month_len(year, month) {
        Some(
            days_before_month(year, month) + day + 365 * (year - 1) + (year - 1) / 4 - (year - 1)
                / 100 + (year - 1) / 400,
        )
    } else {
        None
    }
}

/// Relies on chrono's `NaiveDate::from_ymd_opt` (accepts a month of 1-12, a
/// day within that month, and a year within chrono's range) and
/// `Datelike::num_days_from_ce` (day of the year plus the days of the years
/// before, leap days counted as chrono's own cross-check counts them).
#[verifier::external_body]
fn ce_day(year: i32, month: u32, day: u32) -> (r: Option<i32>)
    ensures
        r matches Some(d) ==> ce_day_of(year as int, month as int, day as int) == Some(d as int),
        r is None ==> ce_day_of(year as int, month as int, day as int) is None,
{
    match chrono::NaiveDate::from_ymd_opt(year, month, day) {
        Some(date) => Some(date.num_days_from_ce()),
        None => None,
    }
}

impl Date {
    /// The date with the given year, month (1-12) and day of month, if it exists.
    pub fn from_ymd(year: i32, month: u32, day: u32) -> (r: Option<Date>)
        ensures
            r matches Some(d) ==> ce_day_of(year as int, month as int, day as int) == Some(
                d.days as int,
            ),
            r is None ==> ce_day_of(year as int, month as int, day as int) is None,
    {
        match ce_day(year, month, day) {
            Some(days) => Some(Date { days }),
            None => None,
        }
    }
}

/// The failures of the store and of authentication.
#[derive(Clone, Copy, Debug, PartialEq, Eq, Structural)]
pub enum Error {
    /// The habit is missing or belongs to someone else, or the user is missing.
    NotFound,
    /// Unknown user name or wrong password; the two are not told apart.
    Unauthorized,
    /// The user name is already taken.
    Conflict,
    /// A failure of storage, identifier allocation or password hashing.
    Internal,
}

/// A habit as handed out to its owner, with (part of) its ledger,
/// newest date first.
#[derive(Debug)]
pub struct Habit {
    pub id: u128,
    pub name: String,
    pub description: String,
    pub dates: Vec<(Date, u8)>,
    pub goal: String,
    pub daily: u8,
}

/// A partial update: each present field replaces the stored one.
#[derive(Debug)]
pub struct HabitOptional {
    pub name: Option<String>,
    pub description: Option<String>,
    pub goal: Option<String>,
    pub daily: Option<u8>,
}

/// The name of a new habit.
pub struct Name {
    pub name: String,
}

/// The identifier of a newly created habit.
pub struct Id {
    pub id: u128,
}

/// How many completions are recorded for a date.
pub struct Amount {
    pub amount: u8,
}

} // verus!
