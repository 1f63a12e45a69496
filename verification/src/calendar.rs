//! Days and dates in the Gregorian calendar.
use vstd::prelude::*;

verus! {

pub open spec fn is_leap_year(y: int) -> bool {
    y % 4 == 0 && (y % 100 != 0 || y % 400 == 0)
}

/// The days from 1 January of year 1 to 1 January of year `y`.
pub open spec fn days_before_year(y: int) -> int {
    365 * (y - 1) + (y - 1) / 4 - (y - 1) / 100 + (y - 1) / 400
}

/// How many days month `m` of year `y` has.
pub open spec fn month_length(y: int, m: int) -> int {
    if m == 2 {
        if is_leap_year(y) {
            29
        } else {
            28
        }
    } else if m == 4 || m == 6 || m == 9 || m == 11 {
        30
    } else {
        31
    }
}

/// The days from the start of year `y` to the start of its month `m`.
pub open spec fn days_before_month(y: int, m: int) -> int
    decreases m,
{
    if m <= 1 {
        0
    } else {
        days_before_month(y, m - 1) + month_length(y, m - 1)
    }
}

/// Whether there is such a date.
pub open spec fn is_date(y: int, m: int, d: int) -> bool {
    1 <= m <= 12 && 1 <= d <= month_length(y, m)
}

/// The days from 1 January 1970 to a date.
pub open spec fn day_number(y: int, m: int, d: int) -> int {
    days_before_year(y) - days_before_year(1970) + days_before_month(y, m) + d - 1
}

proof fn lemma_months(y: int)
    ensures
        days_before_month(y, 1) == 0,
        days_before_month(y, 2) == 31,
        ({
            let f = 59 + if is_leap_year(y) { 1int } else { 0 };
            &&& days_before_month(y, 3) == f
            &&& days_before_month(y, 4) == f + 31
            &&& days_before_month(y, 5) == f + 61
            &&& days_before_month(y, 6) == f + 92
            &&& days_before_month(y, 7) == f + 122
            &&& days_before_month(y, 8) == f + 153
            &&& days_before_month(y, 9) == f + 184
            &&& days_before_month(y, 10) == f + 214
            &&& days_before_month(y, 11) == f + 245
            &&& days_before_month(y, 12) == f + 275
            &&& days_before_month(y, 13) == f + 306
        }),
{
    assert(days_before_month(y, 1) == 0);
    assert(days_before_month(y, 2) == 31);
    assert(days_before_month(y, 3) == 31 + month_length(y, 2));
    assert(days_before_month(y, 4) == days_before_month(y, 3) + 31);
    assert(days_before_month(y, 5) == days_before_month(y, 4) + 30);
    assert(days_before_month(y, 6) == days_before_month(y, 5) + 31);
    assert(days_before_month(y, 7) == days_before_month(y, 6) + 30);
    assert(days_before_month(y, 8) == days_before_month(y, 7) + 31);
    assert(days_before_month(y, 9) == days_before_month(y, 8) + 31);
    assert(days_before_month(y, 10) == days_before_month(y, 9) + 30);
    assert(days_before_month(y, 11) == days_before_month(y, 10) + 31);
    assert(days_before_month(y, 12) == days_before_month(y, 11) + 30);
    assert(days_before_month(y, 13) == days_before_month(y, 12) + 31);
}

/// The days from 1 March of year 0 to 1 March of year `y`.
spec fn days_to_march(y: int) -> int {
    365 * y + y / 4 - y / 100 + y / 400
}

proof fn lemma_march(y: int)
    ensures
        days_to_march(y) - 719468 == days_before_year(y) - days_before_year(1970) + 59 + if is_leap_year(y) {
            1int
        } else {
            0
        },
        days_before_year(y + 1) == days_before_year(y) + 365 + if is_leap_year(y) {
            1int
        } else {
            0
        },
        days_to_march(y + 1) == days_to_march(y) + 365 + if is_leap_year(y + 1) {
            1int
        } else {
            0
        },
{
    assert(days_before_year(1970) == 719162);
}

/// Where in a span of 400 years, counted from March, day `doe` of it lies.
proof fn lemma_year_of_era(doe: int)
    requires
        0 <= doe <= 146096,
    ensures
        ({
            let yoe = (doe - doe / 1460 + doe / 36524 - doe / 146096) / 365;
            let start = 365 * yoe + yoe / 4 - yoe / 100;
            &&& 0 <= yoe <= 399
            &&& start <= doe
            &&& doe < start + 365 + if (yoe + 1) % 4 == 0 && ((yoe + 1) % 100 != 0 || yoe + 1 == 400) {
                1int
            } else {
                0
            }
        }),
{
}

/// How 400 years of the calendar repeat.
proof fn lemma_era(era: int, yoe: int)
    requires
        0 <= yoe <= 399,
    ensures
        days_to_march(yoe + era * 400) == 146_097 * era + 365 * yoe + yoe / 4 - yoe / 100,
        is_leap_year(yoe + era * 400 + 1) == ((yoe + 1) % 4 == 0 && ((yoe + 1) % 100 != 0 || yoe + 1 == 400)),
{
    let y = yoe + era * 400;
    assert(y / 4 == yoe / 4 + 100 * era);
    assert(y / 100 == yoe / 100 + 4 * era);
    assert(y / 400 == era);
    assert((y + 1) % 4 == (yoe + 1) % 4);
    assert((y + 1) % 100 == (yoe + 1) % 100);
    assert(((y + 1) % 400 == 0) == (yoe + 1 == 400));
}

/// Which date day `doy` of the year from March is.
proof fn lemma_month_of(y: int, doy: int)
    requires
        0 <= doy < 365 + if is_leap_year(y + 1) {
            1int
        } else {
            0
        },
    ensures
        ({
            let mp = (5 * doy + 2) / 153;
            let d = doy - (153 * mp + 2) / 5 + 1;
            let m = if mp < 10 {
                mp + 3
            } else {
                mp - 9
            };
            let year = if m <= 2 {
                y + 1
            } else {
                y
            };
            &&& 0 <= mp <= 11
            &&& is_date(year, m, d)
            &&& day_number(year, m, d) == days_to_march(y) - 719_468 + doy
        }),
{
    let mp = (5 * doy + 2) / 153;
    lemma_march(y);
    lemma_months(y);
    lemma_months(y + 1);
    assert(0 <= mp <= 11);
}

/// The date `days` days after 1 January 1970 (before it, where `days` is negative).
pub fn days_to_ymd(days: i64) -> (r: (i64, u32, u32))
    requires
        days <= i64::MAX - 719_468,
    ensures
        is_date(r.0 as int, r.1 as int, r.2 as int),
        day_number(r.0 as int, r.1 as int, r.2 as int) == days,
{
    let z: i64 = days + 719_468;
    // Rounded down, below zero too.
    let era: i64 = if z >= 0 {
        z / 146_097
    } else {
        -((-(z - 146_096)) / 146_097)
    };
    proof {
        assert(z < 0 ==> era == z as int / 146_097);
    }
    let doe: i64 = z - era * 146_097;
    let yoe: i64 = (doe - doe / 1460 + doe / 36524 - doe / 146_096) / 365;
    proof {
        lemma_year_of_era(doe as int);
        lemma_era(era as int, yoe as int);
        lemma_month_of(yoe + era * 400, doe - (365 * yoe + yoe as int / 4 - yoe as int / 100));
    }
    let y: i64 = yoe + era * 400;
    let doy: i64 = doe - (365 * yoe + yoe / 4 - yoe / 100);
    let mp: i64 = (5 * doy + 2) / 153;
    let d: i64 = doy - (153 * mp + 2) / 5 + 1;
    let m: i64 = if mp < 10 {
        mp + 3
    } else {
        mp - 9
    };
    let year: i64 = if m <= 2 {
        y + 1
    } else {
        y
    };
    (year, m as u32, d as u32)
}

proof fn lemma_years_grow(y: int, z: int)
    requires
        y <= z,
    ensures
        days_before_year(y) <= days_before_year(z),
    decreases z - y,
{
    if y < z {
        lemma_years_grow(y, z - 1);
        lemma_march(z - 1);
    }
}

proof fn lemma_within_year(y: int, m: int, d: int)
    requires
        is_date(y, m, d),
    ensures
        0 <= days_before_month(y, m) + d - 1 < days_before_year(y + 1) - days_before_year(y),
{
    lemma_months(y);
    lemma_march(y);
}

/// No two dates have the same number, and later dates have larger ones: a day has one date.
pub proof fn law_dates_are_ordered_as_days(y: int, m: int, d: int, y2: int, m2: int, d2: int)
    requires
        is_date(y, m, d),
        is_date(y2, m2, d2),
    ensures
        day_number(y, m, d) == day_number(y2, m2, d2) <==> (y == y2 && m == m2 && d == d2),
        day_number(y, m, d) < day_number(y2, m2, d2) <==> (y < y2 || (y == y2 && (m < m2 || (m == m2
            && d < d2)))),
{
    lemma_within_year(y, m, d);
    lemma_within_year(y2, m2, d2);
    if y < y2 {
        lemma_years_grow(y + 1, y2);
    } else if y2 < y {
        lemma_years_grow(y2 + 1, y);
    } else {
        lemma_months(y);
    }
}

/// The date of a day, as year, month and day of the month.
pub open spec fn date_of(days: int) -> (int, int, int) {
    choose|r: (int, int, int)| is_date(r.0, r.1, r.2) && #[trigger] day_number(r.0, r.1, r.2) == days
}

/// Whatever date a day has is its date.
pub proof fn lemma_date_of(y: int, m: int, d: int)
    requires
        is_date(y, m, d),
    ensures
        date_of(day_number(y, m, d)) == (y, m, d),
{
    let days = day_number(y, m, d);
    let t = (y, m, d);
    assert(is_date(t.0, t.1, t.2) && day_number(t.0, t.1, t.2) == days);
    let r = date_of(days);
    law_dates_are_ordered_as_days(y, m, d, r.0, r.1, r.2);
}

/// The date of day `days`.
pub fn date_at(days: i64) -> (r: (i64, u32, u32))
    requires
        days <= i64::MAX - 719_468,
    ensures
        (r.0 as int, r.1 as int, r.2 as int) == date_of(days as int),
        is_date(r.0 as int, r.1 as int, r.2 as int),
{
    let r = days_to_ymd(days);
    proof {
        lemma_date_of(r.0 as int, r.1 as int, r.2 as int);
    }
    r
}

} // verus!
