//! Calendar dates, modelled as whole days since 0001-01-01 of the proleptic
//! Gregorian calendar.

use vstd::prelude::*;

verus! {

/// A calendar day, counted as whole days since 0001-01-01 (which is day 0).
///
/// Day numbers compare and subtract like integers, so elapsed time between
/// two dates is a plain difference of `day` fields.
#[derive(Clone, Copy, PartialEq, Eq, Structural, Hash, Debug)]
pub struct Date {
    pub day: u64,
}

/// A Gregorian year is a leap year when it is divisible by 4, except
/// century years, which must be divisible by 400.
pub open spec fn is_leap_year(y: int) -> bool {
    y % 4 == 0 && (y % 100 != 0 || y % 400 == 0)
}

/// Number of days in month `m` (1-based) of year `y`.
pub open spec fn days_in_month(y: int, m: int) -> int {
    if m == 2 {
        if is_leap_year(y) {
            29
        } else {
            28
        }
    } else if m == 4 || m == 6 || m == 9 || m == 11 {
        30
    } else {
        31
    }
}

/// Days in year `y` that lie before the first day of month `m`.
pub open spec fn days_before_month(y: int, m: int) -> int
    decreases m,
{
    if m <= 1 {
        0
    } else {
        days_before_month(y, m - 1) + days_in_month(y, m - 1)
    }
}

/// Days that lie before the first day of year `y`, counted from 0001-01-01.
pub open spec fn days_before_year(y: int) -> int {
    let p = y - 1;
    365 * p + p / 4 - p / 100 + p / 400
}

/// Day number of the calendar date `y-m-d`: 0001-01-01 is day 0.
pub open spec fn day_number(y: int, m: int, d: int) -> int {
    days_before_year(y) + days_before_month(y, m) + d - 1
}

/// A valid calendar date with a four-digit year, as ISO 8601 writes them.
pub open spec fn valid_ymd(y: int, m: int, d: int) -> bool {
    &&& 1 <= y <= 9999
    &&& 1 <= m <= 12
    &&& 1 <= d <= days_in_month(y, m)
}

/// Number of days in the given month, as an executable function.
fn month_len(y: u64, m: u64) -> (r: u64)
    requires
        1 <= m <= 12,
    ensures
        r == days_in_month(y as int, m as int),
        28 <= r <= 31,
{
    if m == 2 {
        if y % 4 == 0 && (y % 100 != 0 || y % 400 == 0) {
            29
        } else {
            28
        }
    } else if m == 4 || m == 6 || m == 9 || m == 11 {
        30
    } else {
        31
    }
}

/// `days_before_month` grows by at most 31 per month.
proof fn lemma_days_before_month_bound(y: int, m: int)
    requires
        1 <= m <= 13,
    ensures
        0 <= days_before_month(y, m) <= 31 * (m - 1),
    decreases m,
{
    if m > 1 {
        lemma_days_before_month_bound(y, m - 1);
    }
}

/// Every valid date has a day number below this bound (9999-12-31 is
/// day 3652058).
pub proof fn lemma_day_number_bound(y: int, m: int, d: int)
    requires
        valid_ymd(y, m, d),
    ensures
        0 <= day_number(y, m, d) < 3652200,
{
    lemma_days_before_month_bound(y, m);
    let p = y - 1;
    vstd::arithmetic::div_mod::lemma_div_is_ordered_by_denominator(p, 4, 100);
    vstd::arithmetic::div_mod::lemma_div_is_ordered(p, 9998, 4);
    vstd::arithmetic::div_mod::lemma_div_is_ordered(p, 9998, 400);
    vstd::arithmetic::div_mod::lemma_div_pos_is_pos(p, 100);
    vstd::arithmetic::div_mod::lemma_div_pos_is_pos(p, 400);
}

impl Date {
    /// Builds the date `y-m-d`, or `None` when the triple is not a valid
    /// calendar date (month out of range, day past the month's end, or a
    /// year outside 1..=9999).
    pub fn from_ymd(y: u64, m: u64, d: u64) -> (r: Option<Date>)
        ensures
            r is Some <==> valid_ymd(y as int, m as int, d as int),
            valid_ymd(y as int, m as int, d as int) ==> r == Some(
                Date { day: day_number(y as int, m as int, d as int) as u64 },
            ),
    {
        if !(1 <= y && y <= 9999 && 1 <= m && m <= 12) {
            return None;
        }
        let dim = month_len(y, m);
        if !(1 <= d && d <= dim) {
            return None;
        }
        let p = y - 1;
        let before_year = 365 * p + p / 4 - p / 100 + p / 400;
        let mut before_month: u64 = 0;
        let mut mm: u64 = 1;
        while mm < m
            invariant
                1 <= mm <= m <= 12,
                y <= 9999,
                before_month == days_before_month(y as int, mm as int),
                before_month <= 31 * (mm - 1),
            decreases m - mm,
        {
            before_month = before_month + month_len(y, mm);
            mm = mm + 1;
        }
        proof {
            lemma_day_number_bound(y as int, m as int, d as int);
        }
        Some(Date { day: before_year + before_month + d - 1 })
    }
}

} // verus!
