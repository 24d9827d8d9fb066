//! The proleptic Gregorian calendar, and the law that the receipts' day
//! count conversion follows it: day 0 is 1970-01-01, every day count gives
//! a real date, and the next day count gives the next date.
use crate::seal::civil_from_days;
use vstd::prelude::*;

verus! {

/// Gregorian leap years: divisible by 4, except centuries not divisible by 400.
pub open spec fn is_leap_year(y: int) -> bool {
    y % 4 == 0 && (y % 100 != 0 || y % 400 == 0)
}

/// The number of days of month `m` (1 to 12) of year `y`.
pub open spec fn days_in_month(y: int, m: int) -> int {
    if m == 2 {
        if is_leap_year(y) {
            29
        } else {
            28
        }
    } else if m == 4 || m == 6 || m == 9 || m == 11 {
        30
    } else {
        31
    }
}

/// `(y, m, d)` is a date of the calendar.
pub open spec fn is_date(t: (int, int, int)) -> bool {
    1 <= t.1 <= 12 && 1 <= t.2 <= days_in_month(t.0, t.1)
}

/// The date after `t`.
pub open spec fn next_date(t: (int, int, int)) -> (int, int, int) {
    if t.2 < days_in_month(t.0, t.1) {
        (t.0, t.1, t.2 + 1)
    } else if t.1 < 12 {
        (t.0, t.1 + 1, 1)
    } else {
        (t.0 + 1, 1, 1)
    }
}

/// Year `k` (from 1 to 400) of a 400-year era is a leap year.
spec fn leap_in_era(k: int) -> bool {
    k % 4 == 0 && (k % 100 != 0 || k == 400)
}

/// The year of an era (counted from March) that holds day `doe` of the era.
spec fn era_year(doe: int) -> int {
    (doe - doe / 1460 + doe / 36524 - doe / 146096) / 365
}

/// The first day of year `yoe` of an era.
spec fn year_start(yoe: int) -> int {
    365 * yoe + yoe / 4 - yoe / 100
}

/// The length of year `yoe` of an era (its February lies in year `yoe + 1`).
spec fn year_len(yoe: int) -> int {
    if leap_in_era(yoe + 1) {
        366
    } else {
        365
    }
}

/// The month (from March, 0 to 11) of day `doy` of a year.
spec fn month_of(doy: int) -> int {
    (5 * doy + 2) / 153
}

/// The day of the month of day `doy` of a year.
spec fn day_of(doy: int) -> int {
    doy - (153 * month_of(doy) + 2) / 5 + 1
}

/// The longest length of month `mp` (from March; February may have 29 days).
spec fn march_len(mp: int) -> int {
    if mp == 11 {
        29
    } else if mp == 1 || mp == 3 || mp == 6 || mp == 8 {
        30
    } else {
        31
    }
}

/// Each day of an era lies in one of its 400 years.
proof fn lemma_year_bounds(doe: int)
    requires
        0 <= doe < 146097,
    ensures
        0 <= era_year(doe) <= 399,
        year_start(era_year(doe)) <= doe < year_start(era_year(doe)) + year_len(era_year(doe)),
{
    let x: u64 = doe as u64;
    assert({
        let yoe = (x - x / 1460 + x / 36524 - x / 146096) / 365;
        let st = 365 * yoe + yoe / 4 - yoe / 100;
        let len: u64 = if (yoe + 1) % 4 == 0 && ((yoe + 1) % 100 != 0 || yoe + 1 == 400) {
            366
        } else {
            365
        };
        &&& yoe <= 399
        &&& st <= x
        &&& x < st + len
    }) by (bit_vector)
        requires
            x < 146097,
    ;
}

/// Years of an era: each day of the era lies in exactly one year, and the
/// day after it lies in the same year or starts the next.
proof fn lemma_year_in_era(doe: int)
    requires
        0 <= doe < 146097,
    ensures
        0 <= era_year(doe) <= 399,
        year_start(era_year(doe)) <= doe < year_start(era_year(doe)) + year_len(era_year(doe)),
        doe + 1 < 146097 ==> if doe + 1 < year_start(era_year(doe)) + year_len(era_year(doe)) {
            era_year(doe + 1) == era_year(doe)
        } else {
            era_year(doe + 1) == era_year(doe) + 1 && year_start(era_year(doe) + 1) == doe + 1
        },
        doe == 146096 ==> era_year(doe) == 399 && doe - year_start(399) == 365,
{
    lemma_year_bounds(doe);
    if doe + 1 < 146097 {
        let yoe = era_year(doe);
        lemma_year_bounds(doe + 1);
        let yoe1 = era_year(doe + 1);
        lemma_year_steps(yoe);
        lemma_year_steps(yoe1);
        if yoe1 > yoe + 1 {
            lemma_year_start_grows(yoe + 1, yoe1);
        }
        if yoe1 < yoe {
            if yoe1 + 1 < yoe {
                lemma_year_start_grows(yoe1 + 1, yoe);
            }
        }
    }
    if doe == 146096 {
        assert(era_year(146096) == 399);
        assert(year_start(399) == 145731);
    }
}

/// Consecutive years of an era follow each other: year `k + 1` starts
/// where year `k` ends.
proof fn lemma_year_steps(k: int)
    requires
        0 <= k <= 399,
    ensures
        k < 399 ==> year_start(k + 1) == year_start(k) + year_len(k),
{
    if k < 399 {
        vstd::arithmetic::div_mod::lemma_fundamental_div_mod(k + 1, 4);
        vstd::arithmetic::div_mod::lemma_fundamental_div_mod(k, 4);
        vstd::arithmetic::div_mod::lemma_fundamental_div_mod(k + 1, 100);
        vstd::arithmetic::div_mod::lemma_fundamental_div_mod(k, 100);
    }
}

/// Later years of an era start at least a year later.
proof fn lemma_year_start_grows(b: int, a: int)
    requires
        0 <= b < a <= 399,
    ensures
        year_start(b) + 365 <= year_start(a),
{
    vstd::arithmetic::div_mod::lemma_div_is_ordered(b, a, 4);
    vstd::arithmetic::div_mod::lemma_fundamental_div_mod(a - b, 100);
    vstd::arithmetic::div_mod::lemma_fundamental_div_mod(a, 100);
    vstd::arithmetic::div_mod::lemma_fundamental_div_mod(b, 100);
}

/// Months of a year: each day of the year lies in one month, on a day from
/// 1 to the month's length, and the next day is the next day of the same
/// month or the first of the next month.
proof fn lemma_month_in_year(doy: int)
    requires
        0 <= doy < 366,
    ensures
        0 <= month_of(doy) <= 11,
        1 <= day_of(doy) <= march_len(month_of(doy)),
        month_of(doy) == 11 ==> day_of(doy) == doy - 336,
        doy == 0 ==> month_of(doy) == 0 && day_of(doy) == 1,
        doy + 1 < 366 ==> if day_of(doy) < march_len(month_of(doy)) {
            month_of(doy + 1) == month_of(doy) && day_of(doy + 1) == day_of(doy) + 1
        } else {
            month_of(doy + 1) == month_of(doy) + 1 && day_of(doy + 1) == 1
        },
{
    // March-based month starts: 0, 31, 61, 92, 122, 153, 184, 214, 245, 275, 306, 337.
    if doy < 31 {
    } else if doy < 61 {
    } else if doy < 92 {
    } else if doy < 122 {
    } else if doy < 153 {
    } else if doy < 184 {
    } else if doy < 214 {
    } else if doy < 245 {
    } else if doy < 275 {
    } else if doy < 306 {
    } else if doy < 337 {
    } else {
    }
}

/// Year `k` of an era starting at year `400 * era` is a Gregorian leap year
/// exactly when it is a leap year of the era.
proof fn lemma_leap_in_era(k: int, era: int)
    requires
        1 <= k <= 400,
        era >= 0,
    ensures
        is_leap_year(k + 400 * era) == leap_in_era(k),
{
    vstd::arithmetic::div_mod::lemma_mod_multiples_vanish(100 * era, k, 4);
    vstd::arithmetic::div_mod::lemma_mod_multiples_vanish(4 * era, k, 100);
    vstd::arithmetic::div_mod::lemma_mod_multiples_vanish(era, k, 400);
    assert(4 * (100 * era) == 400 * era);
    assert(100 * (4 * era) == 400 * era);
}

/// The date of day `doy` of year `yoe` of era `era`, as `civil_from_days`
/// lays it out.
spec fn date_of(era: int, yoe: int, doy: int) -> (int, int, int) {
    let mp = month_of(doy);
    let m = if mp < 10 {
        mp + 3
    } else {
        mp - 9
    };
    (if m <= 2 {
        yoe + era * 400 + 1
    } else {
        yoe + era * 400
    }, m, day_of(doy))
}

/// `civil_from_days` through era, year of era and day of year.
proof fn lemma_civil_parts(days: int)
    requires
        days >= 0,
    ensures
        ({
            let z = days + 719468;
            let era = z / 146097;
            let doe = z % 146097;
            &&& era >= 0
            &&& 0 <= doe < 146097
            &&& z == era * 146097 + doe
            &&& civil_from_days(days) == date_of(era, era_year(doe), doe - year_start(era_year(doe)))
        }),
{
    let z = days + 719468;
    vstd::arithmetic::div_mod::lemma_fundamental_div_mod(z, 146097);
}

/// A date of a year within an era is a calendar date.
proof fn lemma_date_valid(era: int, yoe: int, doy: int)
    requires
        era >= 0,
        0 <= yoe <= 399,
        0 <= doy < year_len(yoe),
    ensures
        is_date(date_of(era, yoe, doy)),
{
    lemma_month_in_year(doy);
    lemma_leap_in_era(yoe + 1, era);
}

/// Day 0 is 1970-01-01.
proof fn lemma_civil_epoch()
    ensures
        civil_from_days(0) == (1970int, 1int, 1int),
{
    lemma_civil_parts(0);
    assert(719468int / 146097 == 4 && 719468int % 146097 == 135080);
    assert(era_year(135080) == 369);
    assert(year_start(369) == 134774);
    lemma_month_in_year(306);
    assert(month_of(306) == 10);
    assert(day_of(306) == 1);
}

/// Calendar law: day 0 is 1970-01-01; every non-negative day count gives a
/// real date of the proleptic Gregorian calendar (a month from 1 to 12 and
/// a day within that month's length, leap years included); and each next
/// day count gives the next date.
#[verifier::rlimit(60)]
pub proof fn lemma_civil_from_days_calendar(days: int)
    requires
        days >= 0,
    ensures
        civil_from_days(0) == (1970int, 1int, 1int),
        is_date(civil_from_days(days)),
        civil_from_days(days + 1) == next_date(civil_from_days(days)),
{
    lemma_civil_epoch();
    lemma_civil_parts(days);
    lemma_civil_parts(days + 1);
    let z = days + 719468;
    let era = z / 146097;
    let doe = z % 146097;
    lemma_year_in_era(doe);
    let yoe = era_year(doe);
    let doy = doe - year_start(yoe);
    lemma_date_valid(era, yoe, doy);
    lemma_month_in_year(doy);
    lemma_leap_in_era(yoe + 1, era);
    let t = civil_from_days(days);
    if doe + 1 < 146097 {
        assert((z + 1) / 146097 == era && (z + 1) % 146097 == doe + 1) by {
            vstd::arithmetic::div_mod::lemma_fundamental_div_mod_converse(z + 1, 146097, era, doe + 1);
        }
        if doe + 1 < year_start(yoe) + year_len(yoe) {
            assert(era_year(doe + 1) == yoe);
            assert(civil_from_days(days + 1) == date_of(era, yoe, doy + 1));
        } else {
            assert(era_year(doe + 1) == yoe + 1);
            let doy1 = doe + 1 - year_start(yoe + 1);
            assert(doy1 == 0);
            lemma_month_in_year(0);
            assert(civil_from_days(days + 1) == date_of(era, yoe + 1, 0));
        }
    } else {
        assert(doe == 146096);
        assert((z + 1) / 146097 == era + 1 && (z + 1) % 146097 == 0) by {
            vstd::arithmetic::div_mod::lemma_fundamental_div_mod_converse(z + 1, 146097, era + 1, 0);
        }
        lemma_year_in_era(0);
        assert(era_year(0) == 0);
        assert(year_start(0) == 0);
        lemma_month_in_year(0);
        lemma_leap_in_era(400, era);
        assert(civil_from_days(days + 1) == date_of(era + 1, 0, 0));
    }
}

} // verus!
