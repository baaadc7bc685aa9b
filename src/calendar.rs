use vstd::prelude::*;
use chrono::{Datelike, Days, NaiveDate};
use crate::datetime::DateTime;
use crate::datetime::Date;

verus! {

/// Whether `year` is a leap year of the proleptic Gregorian calendar.
pub open spec fn is_leap(year: int) -> bool {
    year % 4 == 0 && (year % 100 != 0 || year % 400 == 0)
}

/// The number of days of a month.
pub open spec fn month_len(year: int, month: int) -> int {
    if month == 2 {
        if is_leap(year) {
            29
        } else {
            28
        }
    } else if month == 4 || month == 6 || month == 9 || month == 11 {
        30
    } else {
        31
    }
}

/// A day that the calendar has, within the years chrono covers.
pub open spec fn ymd_valid(year: int, month: int, day: int) -> bool {
    &&& -262143 <= year <= 262142
    &&& 1 <= month <= 12
    &&& 1 <= day <= month_len(year, month)
}

/// The date `year`-`month`-`day`, if the calendar has it.
pub fn from_ymd(year: i32, month: u32, day: u32) -> (r: Option<Date>)
    ensures
        r is Some <==> ymd_valid(year as int, month as int, day as int),
        r matches Some(d) ==> d == (Date { year, month, day }),
{
    if year < -262143 || year > 262142 || month < 1 || month > 12 || day < 1 {
        return None;
    }
    let leap = year % 4 == 0 && (year % 100 != 0 || year % 400 == 0);
    let len: u32 = if month == 2 {
        if leap {
            29
        } else {
            28
        }
    } else if month == 4 || month == 6 || month == 9 || month == 11 {
        30
    } else {
        31
    };
    if day > len {
        None
    } else {
        Some(Date { year, month, day })
    }
}

/// What chrono's `NaiveDate::checked_add_days` gives for `d` and `n`.
pub uninterp spec fn days_after(d: Date, n: u64) -> Option<Date>;

/// What chrono's `NaiveDate::checked_sub_days` gives for `d` and `n`.
pub uninterp spec fn days_before(d: Date, n: u64) -> Option<Date>;

/// What chrono's `Datelike::weekday` gives for `d`, counted from Monday.
pub uninterp spec fn weekday_index(d: Date) -> Option<u32>;

/// Relies on chrono's NaiveDate::checked_add_days: the date `n` days after
/// `d`, none past the calendar's end or for a day it does not have.
#[verifier::external_body]
pub fn add_days(d: Date, n: u64) -> (r: Option<Date>)
    ensures
        r == days_after(d, n),
{
    let x = NaiveDate::from_ymd_opt(d.year, d.month, d.day)?.checked_add_days(Days::new(n))?;
    Some(Date { year: x.year(), month: x.month(), day: x.day() })
}

/// Relies on chrono's NaiveDate::checked_sub_days: the date `n` days before
/// `d`, none before the calendar's start or for a day it does not have.
#[verifier::external_body]
pub fn sub_days(d: Date, n: u64) -> (r: Option<Date>)
    ensures
        r == days_before(d, n),
{
    let x = NaiveDate::from_ymd_opt(d.year, d.month, d.day)?.checked_sub_days(Days::new(n))?;
    Some(Date { year: x.year(), month: x.month(), day: x.day() })
}

/// Relies on chrono's Datelike::weekday and Weekday::num_days_from_monday:
/// 0 for Monday to 6 for Sunday, none for a day the calendar does not have.
#[verifier::external_body]
pub fn weekday_of(d: Date) -> (r: Option<u32>)
    ensures
        r == weekday_index(d),
        r matches Some(w) ==> w < 7,
{
    Some(NaiveDate::from_ymd_opt(d.year, d.month, d.day)?.weekday().num_days_from_monday())
}

/// What chrono's `NaiveDateTime::format` writes for `d` with `pattern`.
pub uninterp spec fn formatted(d: DateTime, pattern: Seq<char>) -> Seq<char>;

/// What chrono's `Datelike::iso_week` gives for `d`: the ISO year and week.
pub uninterp spec fn iso_week_index(d: Date) -> Option<(i32, u32)>;

/// The patterns the library formats dates and times with, all made of
/// specifiers chrono knows.
pub open spec fn known_pattern(p: Seq<char>) -> bool {
    p == "%e %b %Y %-I:%M %p"@ || p == "%e %b %-I:%M %p"@ || p == "%A %-I:%M %p"@ || p == "%-I:%M %p"@
}

/// Relies on chrono's NaiveDateTime::format: the text of `d` after
/// `pattern`; empty for a day or time the calendar does not have. chrono
/// fails on unknown specifiers, which `known_pattern` leaves out.
#[verifier::external_body]
pub fn format_datetime(d: DateTime, pattern: &str) -> (r: String)
    requires
        known_pattern(pattern@),
    ensures
        r@ == formatted(d, pattern@),
{
    match NaiveDate::from_ymd_opt(d.date.year, d.date.month, d.date.day).and_then(|x| x.and_hms_opt(d.time.hour, d.time.minute, 0)) {
        Some(t) => t.format(pattern).to_string(),
        None => String::new(),
    }
}

/// Relies on chrono's Datelike::iso_week: the ISO year and week of `d`,
/// none for a day the calendar does not have.
#[verifier::external_body]
pub fn iso_week_of(d: Date) -> (r: Option<(i32, u32)>)
    ensures
        r == iso_week_index(d),
{
    let w = NaiveDate::from_ymd_opt(d.year, d.month, d.day)?.iso_week();
    Some((w.year(), w.week()))
}

} // verus!
