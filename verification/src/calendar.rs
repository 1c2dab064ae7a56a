//! Calendar years in nanoseconds since the Unix epoch.

use vstd::prelude::*;

verus! {

/// Nanoseconds of a day.
pub const ONE_DAY_NS: i64 = 86_400_000_000_000;

/// A leap year: every fourth year, but of the full centuries only every fourth.
pub open spec fn spec_is_leap(year: int) -> bool {
    (year % 4 == 0 && year % 100 != 0) || year % 400 == 0
}

/// Days of a year.
pub open spec fn year_days(year: int) -> int {
    if spec_is_leap(year) {
        366
    } else {
        365
    }
}

/// Days from the epoch to the first day of a year, negative before 1970.
pub open spec fn epoch_days(year: int) -> int
    decreases if year >= 1970 { year - 1970 } else { 1970 - year },
{
    if year == 1970 {
        0
    } else if year > 1970 {
        epoch_days(year - 1) + year_days(year - 1)
    } else {
        epoch_days(year + 1) - year_days(year)
    }
}

/// Leap years from the year one to the year before this one.
pub open spec fn leaps_before(year: int) -> int {
    (year - 1) / 4 - (year - 1) / 100 + (year - 1) / 400
}

/// The days to a year are 365 for each year and one for each leap year.
pub proof fn law_epoch_days_count_leap_years(year: int)
    ensures
        epoch_days(year) == 365 * (year - 1970) + leaps_before(year) - leaps_before(1970),
    decreases if year >= 1970 { year - 1970 } else { 1970 - year },
{
    if year > 1970 {
        law_epoch_days_count_leap_years(year - 1);
        lemma_one_more_year(year - 1);
    } else if year < 1970 {
        law_epoch_days_count_leap_years(year + 1);
        lemma_one_more_year(year);
    }
}

/// A year adds a leap day to the count if it is a leap year.
proof fn lemma_one_more_year(year: int)
    ensures
        leaps_before(year + 1) - leaps_before(year) == year_days(year) - 365,
{
    assert(year / 4 - (year - 1) / 4 == if year % 4 == 0 {
        1int
    } else {
        0
    });
    assert(year / 100 - (year - 1) / 100 == if year % 100 == 0 {
        1int
    } else {
        0
    });
    assert(year / 400 - (year - 1) / 400 == if year % 400 == 0 {
        1int
    } else {
        0
    });
    assert(year % 100 == 0 ==> year % 4 == 0);
    assert(year % 400 == 0 ==> year % 100 == 0);
}

/// Returns true if the given year is a leap year.
#[must_use]
pub fn is_leap(y: i32) -> (leap: bool)
    ensures
        leap == spec_is_leap(y as int),
{
    // A whole number of 400-year cycles later the year is positive.
    let later: i64 = y as i64 + 2_147_484_000;
    (later % 4 == 0 && later % 100 != 0) || later % 400 == 0
}

/// Nanoseconds from Unix epoch to January 1st of the given year (UTC).
///
/// The years are those whose start a signed count of nanoseconds in 64 bits
/// can hold.
#[must_use]
pub fn year_start_nanos(year: i32) -> (nanos: i64)
    requires
        1678 <= year <= 2262,
    ensures
        nanos == epoch_days(year as int) * ONE_DAY_NS,
{
    let mut days: i64 = 0;
    let mut y: i32 = 1970;
    while y < year
        invariant
            1970 <= y <= 2262,
            y <= year || y == 1970,
            1678 <= year <= 2262,
            days == epoch_days(y as int),
            0 <= days <= 366 * (y - 1970),
        decreases year - y,
    {
        days = days + if is_leap(y) {
            366
        } else {
            365
        };
        y = y + 1;
    }
    while y > year
        invariant
            1678 <= y <= 2262,
            y >= year,
            1678 <= year <= 2262,
            days == epoch_days(y as int),
            days <= 366 * 292,
            y > 1970 || -366 * (1970 - y) <= days,
            y > 1970 ==> y == year,
        decreases y - year,
    {
        y = y - 1;
        days = days - if is_leap(y) {
            366
        } else {
            365
        };
    }
    proof {
        law_epoch_days_count_leap_years(year as int);
    }
    days * ONE_DAY_NS
}

} // verus!
