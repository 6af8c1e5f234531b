//! Calendar dates without a time component, and the month arithmetic the
//! reports need.
use vstd::prelude::*;
use crate::qty::abs_int;

verus! {

/// A calendar date. Well-formed dates keep the month and day in calendar
/// range.
#[derive(Clone, Copy, PartialEq, Eq, Structural, Debug)]
pub struct Date {
    pub year: i32,
    pub month: u32,
    pub day: u32,
}

impl Date {
    pub open spec fn wf(self) -> bool {
        &&& 1 <= self.month <= 12
        &&& 1 <= self.day <= 31
    }

    /// Months since the start of year zero: a total order on (year, month)
    /// buckets.
    pub open spec fn month_key(self) -> int {
        self.year * 12 + (self.month - 1)
    }
}

/// Proleptic Gregorian leap-year rule, symmetric in the sign of the year.
pub open spec fn is_leap_year(y: int) -> bool {
    let a = abs_int(y);
    a % 4 == 0 && (a % 100 != 0 || a % 400 == 0)
}

/// The number of days in month `m` of year `y`.
pub open spec fn spec_days_in_month(y: int, m: int) -> int
    recommends
        1 <= m <= 12,
{
    if m == 2 {
        if is_leap_year(y) {
            29
        } else {
            28
        }
    } else if m == 4 || m == 6 || m == 9 || m == 11 {
        30
    } else {
        31
    }
}

/// The last calendar day of month `m` of `year`.
pub fn get_month_last_date(m: u32, year: i32) -> (r: u32)
    requires
        1 <= m <= 12,
    ensures
        r == spec_days_in_month(year as int, m as int),
{
    if m == 2 {
        let ya: i64 = if year >= 0 {
            year as i64
        } else {
            -(year as i64)
        };
        if ya % 4 == 0 && (ya % 100 != 0 || ya % 400 == 0) {
            29
        } else {
            28
        }
    } else if m == 4 || m == 6 || m == 9 || m == 11 {
        30
    } else {
        31
    }
}

} // verus!
