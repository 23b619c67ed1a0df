//! Proleptic Gregorian calendar arithmetic: leap years, month lengths,
//! stepping one day backward, and a linear day numbering that orders all
//! calendar dates.  The day numbering is what the time-normalization
//! round-trip law is stated over.

use vstd::prelude::*;

verus! {

/// Gregorian leap-year rule.
pub open spec fn is_leap_year(y: int) -> bool {
    (y % 4 == 0 && y % 100 != 0) || y % 400 == 0
}

/// Number of days of month `m` of year `y` (months are 1-based).
pub open spec fn days_in_month(y: int, m: int) -> int {
    if m == 2 {
        if is_leap_year(y) {
            29
        } else {
            28
        }
    } else if m == 4 || m == 6 || m == 9 || m == 11 {
        30
    } else {
        31
    }
}

/// A well-formed calendar date.
pub open spec fn valid_date(y: int, m: int, d: int) -> bool {
    1 <= m <= 12 && 1 <= d <= days_in_month(y, m)
}

/// The date one day before the given one.
pub open spec fn prev_day(y: int, m: int, d: int) -> (int, int, int) {
    if d > 1 {
        (y, m, d - 1)
    } else if m > 1 {
        (y, m - 1, days_in_month(y, m - 1))
    } else {
        (y - 1, 12, 31)
    }
}

/// Number of days of year `y`.
pub open spec fn year_len(y: int) -> int {
    if is_leap_year(y) {
        366
    } else {
        365
    }
}

/// Days of all years before year `y` (counted from year 0).
pub open spec fn days_before_year(y: int) -> int
    decreases y,
{
    if y <= 0 {
        0
    } else {
        days_before_year(y - 1) + year_len(y - 1)
    }
}

/// Days of all months of year `y` before month `m`.
pub open spec fn days_before_month(y: int, m: int) -> int
    decreases m,
{
    if m <= 1 {
        0
    } else {
        days_before_month(y, m - 1) + days_in_month(y, m - 1)
    }
}

/// A linear numbering of calendar dates: the number of days between
/// year 0, January 1st and the given date.
pub open spec fn day_number(y: int, m: int, d: int) -> int {
    days_before_year(y) + days_before_month(y, m) + (d - 1)
}

/// The twelve month lengths of a year sum to the year's length.
proof fn lemma_months_sum(y: int)
    ensures
        days_before_month(y, 12) + days_in_month(y, 12) == year_len(y),
{
    assert(days_before_month(y, 1) == 0);
    assert(days_before_month(y, 2) == 31);
    assert(days_before_month(y, 3) == days_before_month(y, 2) + days_in_month(y, 2));
    assert(days_before_month(y, 4) == days_before_month(y, 3) + 31);
    assert(days_before_month(y, 5) == days_before_month(y, 4) + 30);
    assert(days_before_month(y, 6) == days_before_month(y, 5) + 31);
    assert(days_before_month(y, 7) == days_before_month(y, 6) + 30);
    assert(days_before_month(y, 8) == days_before_month(y, 7) + 31);
    assert(days_before_month(y, 9) == days_before_month(y, 8) + 31);
    assert(days_before_month(y, 10) == days_before_month(y, 9) + 30);
    assert(days_before_month(y, 11) == days_before_month(y, 10) + 31);
    assert(days_before_month(y, 12) == days_before_month(y, 11) + 30);
}

/// Stepping a valid date one day back keeps it valid.
pub proof fn lemma_prev_day_valid(y: int, m: int, d: int)
    requires
        valid_date(y, m, d),
    ensures
        ({
            let (py, pm, pd) = prev_day(y, m, d);
            valid_date(py, pm, pd)
        }),
{
}

/// Stepping one day back decrements the day number by exactly one.
pub proof fn lemma_prev_day_number(y: int, m: int, d: int)
    requires
        valid_date(y, m, d),
        y >= 1,
    ensures
        ({
            let (py, pm, pd) = prev_day(y, m, d);
            day_number(py, pm, pd) == day_number(y, m, d) - 1
        }),
{
    if d > 1 {
    } else if m > 1 {
        assert(days_before_month(y, m) == days_before_month(y, m - 1) + days_in_month(y, m - 1));
    } else {
        lemma_months_sum(y - 1);
        assert(days_before_year(y) == days_before_year(y - 1) + year_len(y - 1));
        assert(days_before_month(y, 1) == 0);
    }
}

/// `days_in_month`, executably.
pub fn days_in_month_x(y: u32, m: u32) -> (n: u32)
    requires
        1 <= m <= 12,
    ensures
        n == days_in_month(y as int, m as int),
{
    if m == 2 {
        if (y % 4 == 0 && y % 100 != 0) || y % 400 == 0 {
            29
        } else {
            28
        }
    } else if m == 4 || m == 6 || m == 9 || m == 11 {
        30
    } else {
        31
    }
}

/// `prev_day`, executably.
pub fn prev_day_x(y: u32, m: u32, d: u32) -> (p: (u32, u32, u32))
    requires
        valid_date(y as int, m as int, d as int),
        y >= 1,
    ensures
        (p.0 as int, p.1 as int, p.2 as int) == prev_day(y as int, m as int, d as int),
{
    if d > 1 {
        (y, m, d - 1)
    } else if m > 1 {
        (y, m - 1, days_in_month_x(y, m - 1))
    } else {
        (y - 1, 12, 31)
    }
}

} // verus!
