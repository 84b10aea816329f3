//! The date of a run, written by `chrono` as `%Y-%m-%d` (the clock is read by
//! the caller, which hands over the year, the month and the day).

use vstd::prelude::*;
use crate::text::natural_text;

verus! {

/// Whether `year` is a leap year of the proleptic Gregorian calendar.
pub open spec fn is_leap_year(year: int) -> bool {
    year % 4 == 0 && (year % 100 != 0 || year % 400 == 0)
}

/// The number of days of `month` (1 to 12) in `year`.
pub open spec fn days_in_month(year: int, month: int) -> int {
    if month == 2 {
        if is_leap_year(year) {
            29
        } else {
            28
        }
    } else if month == 4 || month == 6 || month == 9 || month == 11 {
        30
    } else {
        31
    }
}

/// A date that `chrono::NaiveDate` can hold: a year from -262143 to 262142,
/// a month from 1 to 12 and a day of that month.
pub open spec fn is_valid_date(year: int, month: int, day: int) -> bool {
    &&& -262143 <= year <= 262142
    &&& 1 <= month <= 12
    &&& 1 <= day <= days_in_month(year, month)
}

/// The digits of `n` with zeros in front up to `width` characters.
pub open spec fn zero_padded(n: nat, width: nat) -> Seq<char> {
    let digits = natural_text(n);
    if digits.len() < width {
        Seq::new((width - digits.len()) as nat, |i: int| '0') + digits
    } else {
        digits
    }
}

/// `%Y`: the year with at least four digits; outside the years 0 to 9999 a
/// sign comes first.
pub open spec fn year_text(year: int) -> Seq<char> {
    if 0 <= year <= 9999 {
        zero_padded(year as nat, 4)
    } else if year > 9999 {
        seq!['+'] + zero_padded(year as nat, 4)
    } else {
        seq!['-'] + zero_padded((-year) as nat, 4)
    }
}

/// `%Y-%m-%d` of the date `year`, `month`, `day`.
pub open spec fn ymd_text(year: int, month: int, day: int) -> Seq<char> {
    year_text(year) + seq!['-'] + zero_padded(month as nat, 2) + seq!['-'] + zero_padded(
        day as nat,
        2,
    )
}

/// `NaiveDate::from_ymd_opt(year, month, day)`, then `format("%Y-%m-%d")` and
/// `to_string()`. Claimed, from chrono's source (`from_ymd_opt` gives a date
/// exactly on the valid dates; `%Y` writes the year zero-padded to four digits,
/// with a sign outside 0 to 9999; `%m` and `%d` write two digits): the text is
/// [`ymd_text`] of the given date.
#[verifier::external_body]
pub(crate) fn ymd_date_text(year: i32, month: u32, day: u32) -> (r: String)
    requires
        is_valid_date(year as int, month as int, day as int),
    ensures
        r@ == ymd_text(year as int, month as int, day as int),
{
    chrono::NaiveDate::from_ymd_opt(year, month, day).unwrap().format("%Y-%m-%d").to_string()
}

} // verus!
