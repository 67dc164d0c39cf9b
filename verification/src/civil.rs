//! Proleptic Gregorian calendar arithmetic over days since 1970-01-01.

use vstd::prelude::*;

verus! {

/// Days since 1970-01-01 of a date that the calendar has.
pub open spec fn epoch_day(y: int, m: int, d: int) -> int {
    let yy = if m <= 2 {
        y - 1
    } else {
        y
    };
    let era = yy / 400;
    let yoe = yy - era * 400;
    let doy = (153 * (m + (if m > 2 {
        -3int
    } else {
        9int
    })) + 2) / 5 + d - 1;
    era * 146_097 + yoe * 365 + yoe / 4 - yoe / 100 + doy - 719_468
}

pub open spec fn is_leap(y: int) -> bool {
    y % 4 == 0 && (y % 100 != 0 || y % 400 == 0)
}

pub open spec fn month_days(y: int, m: int) -> int {
    if m == 2 {
        if is_leap(y) {
            29
        } else {
            28
        }
    } else if m == 4 || m == 6 || m == 9 || m == 11 {
        30
    } else {
        31
    }
}

/// A date that the calendar has.
pub open spec fn is_date(y: int, m: int, d: int) -> bool {
    1 <= m <= 12 && 1 <= d <= month_days(y, m)
}

/// The calendar day after a date.
pub open spec fn next_date(y: int, m: int, d: int) -> (int, int, int) {
    if d < month_days(y, m) {
        (y, m, d + 1)
    } else if m < 12 {
        (y, m + 1, 1)
    } else {
        (y + 1, 1, 1)
    }
}

/// The civil date of an epoch day.
#[verifier::opaque]
pub open spec fn civil(z0: int) -> (int, int, int) {
    let z = z0 + 719_468;
    let era = z / 146_097;
    let doe = z - era * 146_097;
    let yoe = (doe - doe / 1_460 + doe / 36_524 - doe / 146_096) / 365;
    let y = yoe + era * 400;
    let doy = doe - (365 * yoe + yoe / 4 - yoe / 100);
    let mp = (5 * doy + 2) / 153;
    let d = doy - (153 * mp + 2) / 5 + 1;
    let m = if mp < 10 {
        mp + 3
    } else {
        mp - 9
    };
    (if m <= 2 {
        y + 1
    } else {
        y
    }, m, d)
}

/// Day zero is 1970-01-01.
pub proof fn law_epoch_is_day_zero()
    ensures
        epoch_day(1970, 1, 1) == 0,
{
}

/// Consecutive calendar dates are consecutive epoch days.
pub proof fn law_next_date_is_next_day(y: int, m: int, d: int)
    requires
        is_date(y, m, d),
    ensures
        ({
            let n = next_date(y, m, d);
            epoch_day(n.0, n.1, n.2) == epoch_day(y, m, d) + 1
        }),
{
    if d == month_days(y, m) {
        if m == 2 {
            lemma_leap_split(y);
        }
    }
}

/// The remainder of a shifted year by a divisor of 400.
proof fn lemma_shift_mod(era: int, yoe: int)
    ensures
        (era * 400 + yoe) % 4 == yoe % 4,
        (era * 400 + yoe) % 100 == yoe % 100,
        (era * 400 + yoe) % 400 == yoe % 400,
{
    assert((era * 400 + yoe) % 4 == yoe % 4) by {
        vstd::arithmetic::div_mod::lemma_mod_multiples_vanish(era * 100, yoe, 4);
    }
    assert((era * 400 + yoe) % 100 == yoe % 100) by {
        vstd::arithmetic::div_mod::lemma_mod_multiples_vanish(era * 4, yoe, 100);
    }
    assert((era * 400 + yoe) % 400 == yoe % 400) by {
        vstd::arithmetic::div_mod::lemma_mod_multiples_vanish(era, yoe, 400);
    }
}

/// Days of `yoe` whole years at the start of a 400-year era.
spec fn year_days(yoe: int) -> int {
    yoe * 365 + yoe / 4 - yoe / 100
}

/// One more year in an era adds the days that the leap rule gives it.
proof fn lemma_year_step(yoe: int)
    requires
        0 <= yoe < 399,
    ensures
        year_days(yoe + 1) - year_days(yoe) == (if (yoe + 1) % 4 == 0 && (yoe + 1) % 100 != 0 {
            366int
        } else {
            365int
        }),
{
}

/// The February rule, in terms of the shifted year that `epoch_day` counts by.
proof fn lemma_leap_split(y: int)
    ensures
        ({
            let a = y - 1;
            let ea = a / 400;
            let ya = a - ea * 400;
            let eb = y / 400;
            let yb = y - eb * 400;
            (eb * 146_097 + yb * 365 + yb / 4 - yb / 100) - (ea * 146_097 + ya * 365 + ya / 4 - ya
                / 100) == (if is_leap(y) {
                366int
            } else {
                365int
            })
        }),
{
    let ea = (y - 1) / 400;
    let ya = (y - 1) - ea * 400;
    lemma_shift_mod(ea, ya + 1);
    if ya < 399 {
        assert(y / 400 == ea);
        lemma_year_step(ya);
    } else {
        assert(y / 400 == ea + 1);
    }
}

/// The year of an era that a day of the era falls in.
pub open spec fn year_of_era(doe: int) -> int {
    (doe - doe / 1_460 + doe / 36_524 - doe / 146_096) / 365
}

proof fn lemma_year_of_era(doe: int)
    requires
        0 <= doe < 146_097,
    ensures
        ({
            let yoe = year_of_era(doe);
            &&& 0 <= yoe < 400
            &&& year_days(yoe) <= doe
            &&& doe - year_days(yoe) <= 365
            &&& yoe < 399 ==> doe < year_days(yoe + 1)
        }),
{
    let c = doe / 36_524;
    let yoe = year_of_era(doe);
    assert(0 <= c <= 4);
    if c == 0 {
    } else if c == 1 {
    } else if c == 2 {
    } else if c == 3 {
    } else {
    }
}

/// Every epoch day has a date in the calendar, and that date's epoch day is
/// the day itself.
pub proof fn law_date_of_day(z: int)
    ensures
        ({
            let (y, m, d) = civil(z);
            is_date(y, m, d) && epoch_day(y, m, d) == z
        }),
{
    reveal(civil);
    let shifted = z + 719_468;
    let era = shifted / 146_097;
    let doe = shifted - era * 146_097;
    lemma_year_of_era(doe);
    let yoe = year_of_era(doe);
    let doy = doe - year_days(yoe);
    let mp = (5 * doy + 2) / 153;
    let (y, m, d) = civil(z);
    assert(0 <= mp <= 11);
    assert(1 <= d <= 31);
    assert(1 <= m <= 12);
    let yy = yoe + era * 400;
    assert(yy / 400 == era && yy - yy / 400 * 400 == yoe);
    lemma_shift_mod(era, yoe + 1);
}

/// The date of a date's epoch day is the date.
pub proof fn law_day_of_date(y: int, m: int, d: int)
    requires
        is_date(y, m, d),
    ensures
        civil(epoch_day(y, m, d)) == (y, m, d),
{
    let yy = if m <= 2 {
        y - 1
    } else {
        y
    };
    let era = yy / 400;
    let yoe = yy - era * 400;
    let mp = if m > 2 {
        m - 3
    } else {
        m + 9
    };
    let doy = (153 * mp + 2) / 5 + d - 1;
    assert(0 <= doy <= 365);
    let doe = year_days(yoe) + doy;
    lemma_shift_mod(era, yoe + 1);
    assert(doy == 365 ==> is_leap(y));
    assert(yoe < 399 ==> doe < year_days(yoe + 1));
    assert(doe < 146_097);
    assert((epoch_day(y, m, d) + 719_468) / 146_097 == era);
    lemma_year_of_era(doe);
    assert(year_of_era(doe) == yoe);
    reveal(civil);
}

/// The civil date of an epoch day.
pub fn civil_from_days(z: i64) -> (r: (i64, u32, u32))
    requires
        z <= i64::MAX - 719_468,
    ensures
        (r.0 as int, r.1 as int, r.2 as int) == civil(z as int),
        is_date(r.0 as int, r.1 as int, r.2 as int),
        r.0 > i64::MIN,
{
    proof {
        reveal(civil);
        law_date_of_day(z as int);
    }
    let shifted: i64 = z + 719_468;
    let floored: i64 = if shifted >= 0 {
        shifted
    } else {
        shifted - 146_096
    };
    let era: i64 = floored / 146_097;
    assert(era == shifted as int / 146_097);
    let doe: i64 = shifted - era * 146_097;
    proof {
        lemma_year_of_era(doe as int);
    }
    let yoe: i64 = (doe - doe / 1_460 + doe / 36_524 - doe / 146_096) / 365;
    let y: i64 = yoe + era * 400;
    let doy: i64 = doe - (365 * yoe + yoe / 4 - yoe / 100);
    let mp: i64 = (5 * doy + 2) / 153;
    let d: i64 = doy - (153 * mp + 2) / 5 + 1;
    let m: i64 = if mp < 10 {
        mp + 3
    } else {
        mp - 9
    };
    (if m <= 2 {
        y + 1
    } else {
        y
    }, m as u32, d as u32)
}

/// Whether the calendar has a date.
pub(crate) fn has_date(y: i64, m: i64, d: i64) -> (r: bool)
    requires
        0 <= y <= 9999,
    ensures
        r == is_date(y as int, m as int, d as int),
{
    if m < 1 || m > 12 || d < 1 {
        return false;
    }
    let leap: bool = y % 4 == 0 && (y % 100 != 0 || y % 400 == 0);
    let days: i64 = if m == 2 {
        if leap {
            29
        } else {
            28
        }
    } else if m == 4 || m == 6 || m == 9 || m == 11 {
        30
    } else {
        31
    };
    d <= days
}

/// The days of the years of four digits.
pub proof fn lemma_epoch_day_range(y: int, m: int, d: int)
    requires
        0 <= y <= 9999,
        is_date(y, m, d),
    ensures
        -719_600 <= epoch_day(y, m, d) <= 2_936_000,
{
    let yy = if m <= 2 {
        y - 1
    } else {
        y
    };
    let era = yy / 400;
    let yoe = yy - era * 400;
    assert(-1 <= era <= 24);
    assert(0 <= yoe < 400);
}

pub(crate) fn days_from_civil(y: i64, m: i64, d: i64) -> (r: i64)
    requires
        0 <= y <= 9999,
        is_date(y as int, m as int, d as int),
    ensures
        r == epoch_day(y as int, m as int, d as int),
        -719_600 <= r <= 2_936_000,
{
    let yy: i64 = if m <= 2 {
        y - 1
    } else {
        y
    };
    let era: i64 = (yy + 400) / 400 - 1;
    assert(era == yy as int / 400 && -1 <= era <= 24);
    let yoe: i64 = yy - era * 400;
    assert(0 <= yoe < 400);
    let shifted: i64 = if m > 2 {
        m - 3
    } else {
        m + 9
    };
    let doy: i64 = (153 * shifted + 2) / 5 + d - 1;
    assert(-1 <= doy <= 3_100);
    era * 146_097 + yoe * 365 + yoe / 4 - yoe / 100 + doy - 719_468
}

/// A date comes before another in the calendar.
pub open spec fn date_before(a: (int, int, int), b: (int, int, int)) -> bool {
    a.0 < b.0 || (a.0 == b.0 && (a.1 < b.1 || (a.1 == b.1 && a.2 < b.2)))
}

/// Later days have later dates.
pub proof fn law_dates_follow_days(z1: int, z2: int)
    requires
        z1 < z2,
    ensures
        date_before(civil(z1), civil(z2)),
    decreases z2 - z1,
{
    let (y, m, d) = civil(z2 - 1);
    law_date_of_day(z2 - 1);
    law_next_date_is_next_day(y, m, d);
    let n = next_date(y, m, d);
    assert(is_date(n.0, n.1, n.2));
    law_day_of_date(n.0, n.1, n.2);
    assert(civil(z2) == n);
    if z1 < z2 - 1 {
        law_dates_follow_days(z1, z2 - 1);
    }
}

} // verus!
