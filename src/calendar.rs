//! The proleptic Gregorian calendar: years, months and days.
use vstd::prelude::*;

use crate::rounding::{
    ceil_div, divide_towards_negative_infinity, divide_towards_positive_infinity, floor_div,
    lemma_ceil_div_bounds, lemma_floor_div_bounds,
};
use crate::{Mark, EPOCH_YEAR};

verus! {

/// Whether `year` has a 29th of February: every fourth year, except every
/// hundredth, except every four hundredth. Year 0 (1BC) is a leap year.
pub open spec fn is_leap_year(year: int) -> bool {
    year % 4 == 0 && (year % 100 != 0 || year % 400 == 0)
}

/// The number of leap days from the first of January of year 1 to the first
/// of January of `year`; negative for years before 1.
pub open spec fn leap_days_before(year: int) -> int {
    (year - 1) / 4 - (year - 1) / 100 + (year - 1) / 400
}

/// Counting one more, the rounded-down quotient grows exactly at a multiple.
proof fn lemma_floor_div_step(x: int, d: int)
    requires
        d > 1,
    ensures
        (x + 1) / d - x / d == if (x + 1) % d == 0 {
            1int
        } else {
            0int
        },
{
    let q = x / d;
    let r = x % d;
    vstd::arithmetic::div_mod::lemma_fundamental_div_mod(x, d);
    assert(x + 1 == (q + 1) * d + (r + 1 - d) && x + 1 == q * d + (r + 1)) by (nonlinear_arith)
        requires
            x == d * q + r,
    ;
    if r == d - 1 {
        vstd::arithmetic::div_mod::lemma_fundamental_div_mod_converse(x + 1, d, x / d + 1, 0);
    } else {
        vstd::arithmetic::div_mod::lemma_fundamental_div_mod_converse(
            x + 1,
            d,
            x / d,
            x % d + 1,
        );
    }
}

/// A year holds one more leap day exactly when it is a leap year.
pub proof fn lemma_leap_day_step(year: int)
    ensures
        leap_days_before(year + 1) - leap_days_before(year) == if is_leap_year(year) {
            1int
        } else {
            0int
        },
{
    lemma_floor_div_step(year - 1, 4);
    lemma_floor_div_step(year - 1, 100);
    lemma_floor_div_step(year - 1, 400);
}

/// Every 400 years hold exactly 97 leap days.
pub proof fn lemma_leap_day_cycles(year: int, cycles: int)
    ensures
        leap_days_before(year + 400 * cycles) == leap_days_before(year) + 97 * cycles,
{
    let x = year - 1;
    vstd::arithmetic::div_mod::lemma_fundamental_div_mod(x, 4);
    vstd::arithmetic::div_mod::lemma_fundamental_div_mod(x, 100);
    vstd::arithmetic::div_mod::lemma_fundamental_div_mod(x, 400);
    vstd::arithmetic::div_mod::lemma_fundamental_div_mod_converse(
        x + 400 * cycles,
        4,
        x / 4 + 100 * cycles,
        x % 4,
    );
    vstd::arithmetic::div_mod::lemma_fundamental_div_mod_converse(
        x + 400 * cycles,
        100,
        x / 100 + 4 * cycles,
        x % 100,
    );
    vstd::arithmetic::div_mod::lemma_fundamental_div_mod_converse(
        x + 400 * cycles,
        400,
        x / 400 + cycles,
        x % 400,
    );
}

/// The number of leap days stays within two days of 97 per 400 years.
pub proof fn lemma_leap_days_bounds(year: int)
    ensures
        97 * (year - 1) - 800 <= 400 * leap_days_before(year) <= 97 * (year - 1) + 800,
{
}

/// Returns the number of leap days between year 1 and `year` according to
/// the proleptic Gregorian calendar; negative for years before 1.
pub fn leap_days_before_year(year: Mark) -> (r: Mark)
    ensures
        r == leap_days_before(year as int),
    decreases
            (if year == Mark::MIN {
                1int
            } else {
                0int
            }),
{
    if year == Mark::MIN {
        // `year - 1` would overflow: count from one cycle of 400 years later.
        proof {
            lemma_leap_day_cycles(year as int, 1);
        }
        leap_days_before_year(year + 400) - 97
    } else {
        let years_count = year - 1;
        divide_towards_negative_infinity(years_count, 4) - divide_towards_negative_infinity(
            years_count,
            100,
        ) + divide_towards_negative_infinity(years_count, 400)
    }
}

const ZMONTH_STARTS: [Mark; 12] = [0, 31, 59, 90, 120, 151, 181, 212, 243, 273, 304, 334];

const ZMONTH_STARTS_LEAP_YEAR: [Mark; 12] = [0, 31, 60, 91, 121, 152, 182, 213, 244, 274, 305, 335];

/// The number of days of the zero-based month `zmonth` (0 is January).
pub open spec fn month_length(leap: bool, zmonth: int) -> int {
    if zmonth == 1 {
        if leap {
            29
        } else {
            28
        }
    } else if zmonth == 3 || zmonth == 5 || zmonth == 8 || zmonth == 10 {
        30
    } else {
        31
    }
}

/// The number of days of a year before its zero-based month `zmonth`.
pub open spec fn days_before_month(leap: bool, zmonth: int) -> int
    decreases zmonth,
{
    if zmonth <= 0 {
        0
    } else {
        days_before_month(leap, zmonth - 1) + month_length(leap, zmonth - 1)
    }
}

/// The number of days of a year.
pub open spec fn year_length(leap: bool) -> int {
    if leap {
        366
    } else {
        365
    }
}

/// The number of days from the first day of `EPOCH_YEAR` to the first day of
/// the year `zyear` years after it (negative for earlier years).
pub open spec fn days_before_zyear(zyear: int) -> int {
    365 * zyear + leap_days_before(zyear + EPOCH_YEAR) - leap_days_before(EPOCH_YEAR as int)
}

/// The day mark of the first day of a month mark. Month 1 is January of
/// `EPOCH_YEAR`, and its first day is day 1.
pub open spec fn month_first_day(month: int) -> int {
    let zmonth = month - 1;
    let zyear = zmonth / 12;
    days_before_zyear(zyear) + days_before_month(is_leap_year(zyear + EPOCH_YEAR), zmonth % 12) + 1
}

/// The month mark of the first month of a year mark.
pub open spec fn year_first_month(year: int) -> int {
    (year - EPOCH_YEAR) * 12 + 1
}

/// What the month tables hold.
proof fn lemma_month_tables()
    ensures
        forall|k: int|
            0 <= k < 12 ==> ZMONTH_STARTS@[k] == days_before_month(false, k)
                && ZMONTH_STARTS_LEAP_YEAR@[k] == days_before_month(true, k),
        forall|k: int|
            0 <= k < 12 ==> #[trigger] ZMONTH_STARTS_LEAP_YEAR@[k] == ZMONTH_STARTS@[k] + if k
                >= 2 {
                1int
            } else {
                0int
            },
        forall|k: int, j: int|
            0 <= k < j < 12 ==> ZMONTH_STARTS@[k] < ZMONTH_STARTS@[j]
                && ZMONTH_STARTS_LEAP_YEAR@[k] < ZMONTH_STARTS_LEAP_YEAR@[j],
        forall|k: int|
            0 <= k < 12 ==> 0 <= #[trigger] ZMONTH_STARTS@[k] <= 334 && 0
                <= ZMONTH_STARTS_LEAP_YEAR@[k] <= 335,
        days_before_month(false, 12) == 365,
        days_before_month(true, 12) == 366,
        ZMONTH_STARTS@[11] == 334,
        ZMONTH_STARTS_LEAP_YEAR@[11] == 335,
{
    assert(ZMONTH_STARTS@ == seq![0isize, 31, 59, 90, 120, 151, 181, 212, 243, 273, 304, 334]);
    assert(ZMONTH_STARTS_LEAP_YEAR@ == seq![
        0isize,
        31,
        60,
        91,
        121,
        152,
        182,
        213,
        244,
        274,
        305,
        335,
    ]);
    reveal_with_fuel(days_before_month, 13);
}

/// Converts a year mark to the month mark of its January.
///
/// Year `EPOCH_YEAR` is month one.
pub fn year_to_month(year: Mark) -> (r: Mark)
    requires
        Mark::MIN <= year_first_month(year as int) <= Mark::MAX,
    ensures
        r == year_first_month(year as int),
{
    let zyear = year - EPOCH_YEAR;
    zyear * 12 + 1
}

/// The first day of a month, from the split of its zero-based month into a
/// year and a month of that year.
proof fn lemma_month_first_day_split(zmonth: int, zyear: int, zmonth_in_year: int)
    requires
        zyear == zmonth / 12,
        zmonth_in_year == zmonth % 12,
    ensures
        month_first_day(zmonth + 1) == 365 * zyear + ZMONTH_STARTS@[zmonth_in_year]
            - leap_days_before(EPOCH_YEAR as int) + leap_days_before(
            zyear + (if zmonth_in_year >= 2 {
                1int
            } else {
                0int
            }) + EPOCH_YEAR,
        ) + 1,
{
    lemma_month_tables();
    lemma_leap_day_step(zyear + EPOCH_YEAR);
}

/// Where the sum that gives a month's first day stays in range, so does each
/// of its partial sums, and so does the zero-based month.
proof fn lemma_month_first_day_partial_sums(
    zmonth: int,
    zyear: int,
    start: int,
    leap_days: int,
    r: int,
)
    requires
        zyear * 12 <= zmonth < zyear * 12 + 12,
        0 <= start <= 334,
        97 * (zyear + 1999) - 800 <= 400 * leap_days <= 97 * (zyear + 2000) + 800,
        r == 365 * zyear + start + 1 - 484 + leap_days,
        Mark::MIN <= r <= Mark::MAX,
    ensures
        Mark::MIN <= zmonth,
        Mark::MIN <= 365 * zyear <= Mark::MAX,
        Mark::MIN <= 365 * zyear + start <= Mark::MAX,
        Mark::MIN <= 365 * zyear + start + 1 <= Mark::MAX,
        Mark::MIN <= 365 * zyear + start + 1 - 484 <= Mark::MAX,
{
    assert(Mark::MIN <= -0x8000_0000 && Mark::MAX >= 0x7fff_ffff);
    if zyear > 0 {
        assert(leap_days > 0);
    } else if zyear < -3000 {
        assert(leap_days < 0);
    }
}

/// Converts a month mark to the day mark of its first day.
///
/// Month one is day one.
pub fn month_to_day(month: Mark) -> (r: Mark)
    requires
        Mark::MIN <= month_first_day(month as int) <= Mark::MAX,
    ensures
        r == month_first_day(month as int),
{
    let ghost zmonth_int = month - 1;
    let ghost zyear_int = zmonth_int / 12;
    let ghost k = zmonth_int % 12;
    let ghost zleap_int = zyear_int + (if k >= 2 { 1int } else { 0int });
    proof {
        lemma_floor_div_bounds(zmonth_int, 12);
        lemma_month_first_day_split(zmonth_int, zyear_int, k);
        lemma_month_tables();
        lemma_leap_days_bounds(zleap_int + EPOCH_YEAR);
        lemma_month_first_day_partial_sums(
            zmonth_int,
            zyear_int,
            ZMONTH_STARTS@[k] as int,
            leap_days_before(zleap_int + EPOCH_YEAR),
            month_first_day(month as int),
        );
    }
    let zmonth = month - 1;
    let zyear = divide_towards_negative_infinity(zmonth, 12);
    let zmonth_in_year = zmonth - zyear * 12;
    // From March on, the leap day of the month's own year has passed.
    let zleap_year = zyear + if zmonth_in_year >= 2 {
        1
    } else {
        0
    };
    let leap_days = leap_days_before_year(zleap_year + EPOCH_YEAR);
    let base_leap_days = leap_days_before_year(EPOCH_YEAR);
    zyear * 365 + ZMONTH_STARTS[zmonth_in_year as usize] + 1 - base_leap_days + leap_days
}

/// The number of days in a cycle of 400 years.
const CYCLE_DAYS: Mark = 146097;

/// Converts a month mark to the year mark that contains it.
///
/// Month one is year `EPOCH_YEAR`.
pub fn month_to_year(month: Mark) -> (r: Mark)
    ensures
        r == floor_div(month - 1, 12) + EPOCH_YEAR,
    decreases
            (if month == Mark::MIN {
                1int
            } else {
                0int
            }),
{
    if month == Mark::MIN {
        // `month - 1` would overflow: start from one year later.
        month_to_year(month + 12) - 1
    } else {
        divide_towards_negative_infinity(month - 1, 12) + EPOCH_YEAR
    }
}

/// Converts a month mark to the first year mark that starts at or after it.
///
/// Month one is year `EPOCH_YEAR`; month two rounds up to the year after.
pub fn month_to_year_up(month: Mark) -> (r: Mark)
    ensures
        r == ceil_div(month - 1, 12) + EPOCH_YEAR,
    decreases
            (if month == Mark::MIN {
                1int
            } else {
                0int
            }),
{
    if month == Mark::MIN {
        // `month - 1` would overflow: start from one year later.
        month_to_year_up(month + 12) - 1
    } else {
        divide_towards_positive_infinity(month - 1, 12) + EPOCH_YEAR
    }
}

/// The years that start shortly before or after the first day of a cycle of
/// 400 years hold between 0 and 97 leap days since that first day.
proof fn lemma_leap_days_in_cycle(zyear: int)
    requires
        -1 <= zyear <= 400,
    ensures
        0 <= leap_days_before(zyear + EPOCH_YEAR) - leap_days_before(EPOCH_YEAR as int) <= 97,
{
}

/// Shifting a year by whole cycles of 400 years shifts its first day by whole
/// cycles of days.
proof fn lemma_days_before_zyear_cycles(zyear: int, cycles: int)
    ensures
        days_before_zyear(zyear + 400 * cycles) == days_before_zyear(zyear) + CYCLE_DAYS
            * cycles,
        is_leap_year(zyear + 400 * cycles + EPOCH_YEAR) == is_leap_year(zyear + EPOCH_YEAR),
{
    let y = zyear + EPOCH_YEAR;
    lemma_leap_day_cycles(y, cycles);
    vstd::arithmetic::div_mod::lemma_fundamental_div_mod(y, 4);
    vstd::arithmetic::div_mod::lemma_fundamental_div_mod(y, 100);
    vstd::arithmetic::div_mod::lemma_fundamental_div_mod(y, 400);
    vstd::arithmetic::div_mod::lemma_fundamental_div_mod_converse(
        y + 400 * cycles,
        4,
        y / 4 + 100 * cycles,
        y % 4,
    );
    vstd::arithmetic::div_mod::lemma_fundamental_div_mod_converse(
        y + 400 * cycles,
        100,
        y / 100 + 4 * cycles,
        y % 100,
    );
    vstd::arithmetic::div_mod::lemma_fundamental_div_mod_converse(
        y + 400 * cycles,
        400,
        y / 400 + cycles,
        y % 400,
    );
}

/// A year lasts 365 days, or 366 in a leap year.
proof fn lemma_year_length(zyear: int)
    ensures
        days_before_zyear(zyear + 1) - days_before_zyear(zyear) == year_length(
            is_leap_year(zyear + EPOCH_YEAR),
        ),
{
    lemma_leap_day_step(zyear + EPOCH_YEAR);
}

/// Counting whole cycles of 400 years, then years of 365 days in what is
/// left, finds the year that contains a day or the year after it.
proof fn lemma_year_estimate(zday: int)
    ensures
        ({
            let estimate = (zday - (zday / (CYCLE_DAYS as int)) * 97) / 365;
            days_before_zyear(estimate - 1) <= zday < days_before_zyear(estimate + 1)
        }),
{
    let cycles = zday / (CYCLE_DAYS as int);
    let d = zday - cycles * CYCLE_DAYS;
    let estimate = (zday - cycles * 97) / 365;
    let y = d / 365;
    assert(zday - cycles * 97 == 365 * (400 * cycles) + d);
    assert(estimate == 400 * cycles + y);
    lemma_leap_days_in_cycle(y - 1);
    lemma_leap_days_in_cycle(y);
    lemma_days_before_zyear_cycles(y - 1, cycles);
    lemma_days_before_zyear_cycles(y + 1, cycles);
    if y < 400 {
        lemma_leap_days_in_cycle(y + 1);
    } else {
        lemma_leap_day_step(y + EPOCH_YEAR);
    }
}

/// Splits a day mark into the year that contains it, counted from
/// `EPOCH_YEAR`, the zero-based day within that year, and whether that year
/// is a leap year.
fn day_to_zyear_and_days(day: Mark) -> (r: (Mark, Mark, bool))
    ensures
        days_before_zyear(r.0 as int) <= day - 1 < days_before_zyear(r.0 + 1),
        r.1 == day - 1 - days_before_zyear(r.0 as int),
        r.2 == is_leap_year(r.0 + EPOCH_YEAR),
    decreases
            (if day < Mark::MIN + CYCLE_DAYS || day > Mark::MAX - CYCLE_DAYS {
                1int
            } else {
                0int
            }),
{
    proof {
        assert(Mark::MIN <= -0x8000_0000 && Mark::MAX >= 0x7fff_ffff);
    }
    if day < Mark::MIN + CYCLE_DAYS {
        // The first day of the year may not be representable: count from one
        // cycle of 400 years later.
        assert(day + CYCLE_DAYS <= Mark::MAX - CYCLE_DAYS);
        let (zyear, zdays_in_year, is_leap_year) = day_to_zyear_and_days(day + CYCLE_DAYS);
        proof {
            lemma_days_before_zyear_cycles(zyear - 400, 1);
            lemma_days_before_zyear_cycles(zyear - 399, 1);
            lemma_leap_days_bounds(zyear + EPOCH_YEAR);
        }
        return (zyear - 400, zdays_in_year, is_leap_year);
    }
    if day > Mark::MAX - CYCLE_DAYS {
        // The first day of the next year may not be representable: count
        // from one cycle of 400 years earlier.
        assert(day - CYCLE_DAYS > Mark::MIN + CYCLE_DAYS);
        let (zyear, zdays_in_year, is_leap_year) = day_to_zyear_and_days(day - CYCLE_DAYS);
        proof {
            lemma_days_before_zyear_cycles(zyear as int, 1);
            lemma_days_before_zyear_cycles(zyear + 1, 1);
            lemma_leap_days_bounds(zyear + EPOCH_YEAR);
        }
        return (zyear + 400, zdays_in_year, is_leap_year);
    }
    let zday = day - 1;
    let cycles = divide_towards_negative_infinity(zday, CYCLE_DAYS);
    proof {
        lemma_floor_div_bounds(zday as int, CYCLE_DAYS as int);
        lemma_year_estimate(zday as int);
    }
    // A first guess of the year, which is the right one or the one after.
    let mut zyear = divide_towards_negative_infinity(zday - cycles * 97, 365);
    proof {
        lemma_year_length(zyear - 1);
        lemma_year_length(zyear as int);
        lemma_leap_days_bounds(zyear + EPOCH_YEAR);
    }
    let base_leap_days = leap_days_before_year(EPOCH_YEAR);
    let mut leap_days = leap_days_before_year(zyear + EPOCH_YEAR) - base_leap_days;
    let mut zstart_of_year = zyear * 365 + leap_days;
    if zstart_of_year > zday {
        zyear -= 1;
        leap_days = leap_days_before_year(zyear + EPOCH_YEAR) - base_leap_days;
        zstart_of_year = zyear * 365 + leap_days;
    }
    proof {
        lemma_leap_day_step(zyear + EPOCH_YEAR);
    }
    let is_leap_year = leap_days_before_year(zyear + 1 + EPOCH_YEAR) - base_leap_days > leap_days;
    (zyear, zday - zstart_of_year, is_leap_year)
}

/// The first day of the month `j` of the year `zyear` (counted from 1), or of
/// the January after it for `j == 13`.
pub proof fn lemma_month_first_day_in_year(zyear: int, j: int)
    requires
        1 <= j <= 13,
    ensures
        month_first_day(zyear * 12 + j) == days_before_zyear(zyear) + days_before_month(
            is_leap_year(zyear + EPOCH_YEAR),
            j - 1,
        ) + 1,
{
    lemma_month_tables();
    lemma_year_length(zyear);
    if j <= 12 {
        vstd::arithmetic::div_mod::lemma_fundamental_div_mod_converse(
            zyear * 12 + j - 1,
            12,
            zyear,
            j - 1,
        );
    } else {
        vstd::arithmetic::div_mod::lemma_fundamental_div_mod_converse(
            zyear * 12 + j - 1,
            12,
            zyear + 1,
            0,
        );
    }
}

/// The first day of the December before the year `zyear` comes at least 31
/// days before that year.
proof fn lemma_december_before(zyear: int)
    ensures
        month_first_day(zyear * 12) <= days_before_zyear(zyear) - 30,
{
    lemma_month_tables();
    lemma_year_length(zyear - 1);
    lemma_month_first_day_in_year(zyear - 1, 12);
    assert((zyear - 1) * 12 + 12 == zyear * 12);
}

/// The year that contains a day lies within a year of the day's count of
/// days divided by 365.2425.
proof fn lemma_zyear_bounds(zyear: int, zday: int)
    requires
        days_before_zyear(zyear) <= zday < days_before_zyear(zyear + 1),
        Mark::MIN <= zday + 1 <= Mark::MAX,
    ensures
        Mark::MIN <= zyear * 12 <= Mark::MAX - 13,
        Mark::MIN <= zyear * 12 - 1,
{
    lemma_leap_days_bounds(zyear + EPOCH_YEAR);
    lemma_leap_days_bounds(zyear + 1 + EPOCH_YEAR);
    assert(Mark::MIN <= -0x8000_0000 && Mark::MAX >= 0x7fff_ffff);
}

/// Converts a day mark to the month mark that contains it.
///
/// Day one is month one. This takes leap years into account.
pub fn day_to_month(day: Mark) -> (r: Mark)
    ensures
        month_first_day(r as int) <= day < month_first_day(r + 1),
{
    let (zyear, zdays_in_year, is_leap_year) = day_to_zyear_and_days(day);
    proof {
        lemma_month_tables();
        lemma_year_length(zyear as int);
        lemma_zyear_bounds(zyear as int, day - 1);
    }
    let month_ends = if is_leap_year {
        ZMONTH_STARTS_LEAP_YEAR
    } else {
        ZMONTH_STARTS
    };
    let mut month: usize = 1;
    while month < month_ends.len() && zdays_in_year >= month_ends[month]
        invariant
            1 <= month <= 12,
            month_ends@ == (if is_leap_year {
                ZMONTH_STARTS_LEAP_YEAR@
            } else {
                ZMONTH_STARTS@
            }),
            zdays_in_year >= month_ends@[month - 1],
        decreases 12 - month,
    {
        month += 1;
    }
    proof {
        lemma_month_first_day_in_year(zyear as int, month as int);
        lemma_month_first_day_in_year(zyear as int, month + 1);
    }
    zyear * 12 + month as Mark
}

/// Converts a day mark to the first month mark that starts at or after it.
///
/// Day one is month one. This takes leap years into account.
pub fn day_to_month_up(day: Mark) -> (r: Mark)
    ensures
        month_first_day(r - 1) < day <= month_first_day(r as int),
{
    let (zyear, zdays_in_year, is_leap_year) = day_to_zyear_and_days(day);
    proof {
        lemma_month_tables();
        lemma_year_length(zyear as int);
        lemma_zyear_bounds(zyear as int, day - 1);
    }
    let month_ends = if is_leap_year {
        ZMONTH_STARTS_LEAP_YEAR
    } else {
        ZMONTH_STARTS
    };
    let mut month: usize = 1;
    while month <= month_ends.len() && zdays_in_year > month_ends[month - 1]
        invariant
            1 <= month <= 13,
            month_ends@ == (if is_leap_year {
                ZMONTH_STARTS_LEAP_YEAR@
            } else {
                ZMONTH_STARTS@
            }),
            month >= 2 ==> zdays_in_year > month_ends@[month - 2],
        decreases 13 - month,
    {
        month += 1;
    }
    proof {
        lemma_month_first_day_in_year(zyear as int, month as int);
        if month >= 2 {
            lemma_month_first_day_in_year(zyear as int, month - 1);
        } else {
            lemma_december_before(zyear as int);
        }
    }
    zyear * 12 + month as Mark
}

/// Each month lasts its length in its year: 31, 30, or 28 or 29 days for
/// February.
pub proof fn lemma_month_length(month: int)
    ensures
        month_first_day(month + 1) - month_first_day(month) == month_length(
            is_leap_year((month - 1) / 12 + EPOCH_YEAR),
            (month - 1) % 12,
        ),
{
    let zyear = (month - 1) / 12;
    let j = (month - 1) % 12 + 1;
    vstd::arithmetic::div_mod::lemma_fundamental_div_mod(month - 1, 12);
    assert(month == zyear * 12 + j);
    lemma_month_first_day_in_year(zyear, j);
    lemma_month_first_day_in_year(zyear, j + 1);
}

/// Later months start on later days.
pub proof fn lemma_month_first_day_increasing(a: int, b: int)
    requires
        a < b,
    ensures
        month_first_day(a) < month_first_day(b),
    decreases b - a,
{
    lemma_month_length(a);
    if a + 1 < b {
        lemma_month_first_day_increasing(a + 1, b);
    }
}

/// Rounding a day down and up gives months that start less than 31 days
/// away on either side of it and at most one month apart; the first day of
/// a month rounds to that month both ways.
pub proof fn lemma_day_month_round_trip(day: int, down: int, up: int, month: int)
    requires
        month_first_day(down) <= day < month_first_day(down + 1),
        month_first_day(up - 1) < day <= month_first_day(up),
    ensures
        month_first_day(down) <= day <= month_first_day(up),
        day - month_first_day(down) < 31,
        month_first_day(up) - day < 31,
        0 <= up - down <= 1,
        month_first_day(month) < month_first_day(month + 1),
        month_first_day(month - 1) < month_first_day(month),
{
    lemma_month_length(down);
    lemma_month_length(up - 1);
    lemma_month_length(month);
    lemma_month_length(month - 1);
    if up < down {
        lemma_month_first_day_increasing(up, down);
    }
    if up > down + 1 {
        lemma_month_first_day_increasing(down + 1, up - 1);
    }
}

/// A day rounds to one month only: the contracts of `day_to_month` and
/// `day_to_month_up` each fix their result.
pub proof fn lemma_day_month_unique(day: int, a: int, b: int)
    ensures
        month_first_day(a) <= day < month_first_day(a + 1) && month_first_day(b) <= day
            < month_first_day(b + 1) ==> a == b,
        month_first_day(a - 1) < day <= month_first_day(a) && month_first_day(b - 1) < day
            <= month_first_day(b) ==> a == b,
{
    if a < b {
        lemma_month_first_day_increasing(a, b);
        if a + 1 < b {
            lemma_month_first_day_increasing(a + 1, b);
            lemma_month_first_day_increasing(a, b - 1);
        }
    } else if b < a {
        lemma_month_first_day_increasing(b, a);
        if b + 1 < a {
            lemma_month_first_day_increasing(b + 1, a);
            lemma_month_first_day_increasing(b, a - 1);
        }
    }
}

/// Rounding days to months, either way, never decreases as the day grows.
pub proof fn lemma_day_to_month_monotone(d1: int, d2: int, r1: int, r2: int, u1: int, u2: int)
    requires
        d1 <= d2,
        month_first_day(r1) <= d1 < month_first_day(r1 + 1),
        month_first_day(r2) <= d2 < month_first_day(r2 + 1),
        month_first_day(u1 - 1) < d1 <= month_first_day(u1),
        month_first_day(u2 - 1) < d2 <= month_first_day(u2),
    ensures
        r1 <= r2,
        u1 <= u2,
{
    if r2 + 1 < r1 {
        lemma_month_first_day_increasing(r2 + 1, r1);
    }
    if u2 < u1 - 1 {
        lemma_month_first_day_increasing(u2, u1 - 1);
    }
}

/// Rounding a month down and up gives years whose Januaries lie less than
/// 12 months away on either side of it; the January of a year rounds to that
/// year both ways.
pub proof fn lemma_month_year_round_trip(month: int, year: int)
    ensures
        year_first_month(floor_div(month - 1, 12) + EPOCH_YEAR) <= month < year_first_month(
            floor_div(month - 1, 12) + EPOCH_YEAR + 1,
        ),
        year_first_month(ceil_div(month - 1, 12) + EPOCH_YEAR - 1) < month <= year_first_month(
            ceil_div(month - 1, 12) + EPOCH_YEAR,
        ),
        floor_div(year_first_month(year) - 1, 12) + EPOCH_YEAR == year,
        ceil_div(year_first_month(year) - 1, 12) + EPOCH_YEAR == year,
{
    crate::rounding::lemma_division_round_trip(month - 1, year - EPOCH_YEAR, 12);
    lemma_ceil_div_bounds(month - 1, 12);
    assert(year_first_month(year) - 1 == (year - EPOCH_YEAR) * 12);
}

} // verus!
