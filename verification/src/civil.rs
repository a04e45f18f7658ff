//! Dates of the Gregorian calendar as days since 1970-01-01.
use vstd::prelude::*;

verus! {

/// Leap days in the years up to and with `year`.
pub open spec fn leap_days(year: int) -> int {
    year / 4 - year / 100 + year / 400
}

pub open spec fn is_leap(year: int) -> bool {
    year % 4 == 0 && (year % 100 != 0 || year % 400 == 0)
}

/// Days of a common year before a month.
pub open spec fn days_before_month(month: int) -> int {
    if month == 1 {
        0
    } else if month == 2 {
        31
    } else if month == 3 {
        59
    } else if month == 4 {
        90
    } else if month == 5 {
        120
    } else if month == 6 {
        151
    } else if month == 7 {
        181
    } else if month == 8 {
        212
    } else if month == 9 {
        243
    } else if month == 10 {
        273
    } else if month == 11 {
        304
    } else {
        334
    }
}

/// Days from 1970-01-01 to a date: those of the years between, those of the months before
/// in its own year, and those of the month.
pub open spec fn days_since_epoch(year: int, month: int, day: int) -> int {
    365 * (year - 1970) + leap_days(year - 1) - leap_days(1969) + days_before_month(month) + (
    if is_leap(year) && month > 2 {
        1
    } else {
        0int
    }) + day - 1
}

/// Years counted from March in eras of 400 years come to the same days.
proof fn lemma_eras(march_year: int, era: int)
    requires
        era == march_year / 400,
    ensures
        ({
            let year_of_era = march_year - era * 400;
            0 <= year_of_era < 400 && era * 146_097 + year_of_era * 365 + year_of_era / 4
                - year_of_era / 100 == 365 * march_year + leap_days(march_year)
        }),
{
    let year_of_era = march_year - era * 400;
    assert(march_year / 4 == 100 * era + year_of_era / 4);
    assert(march_year / 100 == 4 * era + year_of_era / 100);
}

proof fn lemma_quarters(year: int)
    ensures
        year / 4 - (year - 1) / 4 == (if year % 4 == 0 {
            1int
        } else {
            0
        }),
{
}

proof fn lemma_centuries(year: int)
    ensures
        year / 100 - (year - 1) / 100 == (if year % 100 == 0 {
            1int
        } else {
            0
        }),
        year % 100 == 0 ==> year % 4 == 0,
{
    if year % 100 == 0 {
        assert(year == 4 * (25 * (year / 100)));
    }
}

proof fn lemma_cycles(year: int)
    ensures
        year / 400 - (year - 1) / 400 == (if year % 400 == 0 {
            1int
        } else {
            0
        }),
        year % 400 == 0 ==> year % 100 == 0,
{
    if year % 400 == 0 {
        assert(year == 100 * (4 * (year / 400)));
    }
}

proof fn lemma_leap_day(year: int)
    ensures
        leap_days(year) - leap_days(year - 1) == (if is_leap(year) {
            1int
        } else {
            0
        }),
{
    lemma_quarters(year);
    lemma_centuries(year);
    lemma_cycles(year);
    let q = (year / 4, (year - 1) / 4, year % 4);
    let c = (year / 100, (year - 1) / 100, year % 100);
    let d = (year / 400, (year - 1) / 400, year % 400);
    assert(leap_days(year) == q.0 - c.0 + d.0);
    assert(leap_days(year - 1) == q.1 - c.1 + d.1);
}

/// Days from 1970-01-01 to a date, counted in eras of 400 years that start in March.
pub fn days_of(year: i64, month: i64, day: i64) -> (days: i128)
    requires
        1 <= month <= 12,
        1 <= day <= 31,
    ensures
        days == days_since_epoch(year as int, month as int, day as int),
        -0x1_0000_0000_0000_0000_0000 <= days <= 0x1_0000_0000_0000_0000_0000,
{
    let march_year: i128 = if month <= 2 {
        year as i128 - 1
    } else {
        year as i128
    };
    let era: i128 = if march_year >= 0 {
        march_year / 400
    } else {
        -((399 - march_year) / 400)
    };
    proof {
        if march_year < 0 {
            assert(-((399 - march_year) / 400) == march_year / 400);
        }
    }
    let year_of_era: i128 = march_year - era * 400;
    proof {
        lemma_eras(march_year as int, era as int);
        lemma_leap_day(year as int);
    }
    let march_month: i64 = if month > 2 {
        month - 3
    } else {
        month + 9
    };
    let day_of_year: i128 = ((153 * march_month + 2) / 5 + day - 1) as i128;
    let day_of_era: i128 = year_of_era * 365 + year_of_era / 4 - year_of_era / 100 + day_of_year;
    era * 146_097 + day_of_era - 719_468
}

/// Days from 1970-01-01 to a date.
pub fn days_from_civil(year: i64, month: i64, day: i64) -> (days: i64)
    requires
        1 <= month <= 12,
        1 <= day <= 31,
        i64::MIN <= days_since_epoch(year as int, month as int, day as int) <= i64::MAX,
    ensures
        days == days_since_epoch(year as int, month as int, day as int),
{
    days_of(year, month, day) as i64
}

// ---------------------------------------------------------------------------
// Laws
// ---------------------------------------------------------------------------

/// How many days a month has.
pub open spec fn month_days(year: int, month: int) -> int {
    if month == 2 {
        if is_leap(year) {
            29
        } else {
            28
        }
    } else if month == 4 || month == 6 || month == 9 || month == 11 {
        30
    } else {
        31
    }
}

/// The count goes on without a gap: the day behind the last of a month is the first of
/// the next, over the end of a year too.
pub proof fn law_days_are_consecutive(year: int, month: int, day: int)
    requires
        1 <= month <= 12,
    ensures
        days_since_epoch(year, month, day + 1) == days_since_epoch(year, month, day) + 1,
        month < 12 ==> days_since_epoch(year, month + 1, 1) == days_since_epoch(
            year,
            month,
            month_days(year, month),
        ) + 1,
        month == 12 ==> days_since_epoch(year + 1, 1, 1) == days_since_epoch(year, 12, 31) + 1,
{
    lemma_leap_day(year);
}

} // verus!
