//! Calendar dates of the proleptic Gregorian calendar, and the `MM/DD/YYYY`
//! date notation of the report e-mails.

use vstd::prelude::*;

verus! {

/// A calendar date; the ones this library produces satisfy
/// [`is_valid_date`].
#[derive(Debug, Clone, Copy, PartialEq, Eq, Structural)]
pub struct CalendarDate {
    pub year: i32,
    /// 1 for January through 12 for December.
    pub month: u8,
    pub day: u8,
}

/// Gregorian leap year.
pub open spec fn is_leap_year(year: int) -> bool {
    year % 4 == 0 && (year % 100 != 0 || year % 400 == 0)
}

/// Number of days of `month` (1 to 12) in `year`.
pub open spec fn days_in_month(year: int, month: int) -> int {
    if month == 2 {
        if is_leap_year(year) {
            29
        } else {
            28
        }
    } else if month == 4 || month == 6 || month == 9 || month == 11 {
        30
    } else {
        31
    }
}

/// The dates that `time::Date` can hold (years -9999 through 9999).
pub open spec fn is_valid_date(year: int, month: int, day: int) -> bool {
    &&& -9999 <= year <= 9999
    &&& 1 <= month <= 12
    &&& 1 <= day <= days_in_month(year, month)
}

} // verus!
