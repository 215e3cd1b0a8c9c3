//! UTC leap seconds: minutes and seconds.
//!
//! The table below ends with the leap second of the last day of 2016, the
//! last one declared. Results on the second lane drift by one second for each
//! leap second declared after it.
use vstd::prelude::*;

use crate::rounding::{
    divide_towards_negative_infinity, divide_towards_positive_infinity, lemma_ceil_div_bounds,
    lemma_floor_div_bounds,
};
use crate::calendar::{
    days_before_month, days_before_zyear, is_leap_year, lemma_month_first_day_in_year,
    month_first_day, year_first_month,
};
use crate::EPOCH_YEAR;
use crate::Mark;

verus! {

/// All known leap seconds, each as the mark of the minute that follows it:
/// the minute before each of these holds 61 seconds.
pub const LEAP_SECONDS_MARKS: [Mark; 27] = [
    -14464800,
    -14199840,
    -13674240,
    -13148640,
    -12623040,
    -12096000,
    -11570400,
    -11044800,
    -10519200,
    -9731520,
    -9205920,
    -8680320,
    -7627680,
    -6311520,
    -5258880,
    -4733280,
    -3945600,
    -3420000,
    -2894400,
    -2103840,
    -1316160,
    -525600,
    3156480,
    4734720,
    6573600,
    8150400,
    8942400,
];

/// How many of the first `n` entries of the leap-second table are at or
/// before `minute`.
pub open spec fn leap_seconds_at_or_before(minute: int, n: int) -> int
    decreases n,
{
    if n <= 0 {
        0
    } else {
        leap_seconds_at_or_before(minute, n - 1) + if LEAP_SECONDS_MARKS@[n - 1] <= minute {
            1int
        } else {
            0int
        }
    }
}

/// The number of leap seconds between the start of minute 0, the first minute
/// of `EPOCH_YEAR`, and the start of `minute`; negative before it.
pub open spec fn leap_seconds_before(minute: int) -> int {
    leap_seconds_at_or_before(minute, 27) - leap_seconds_at_or_before(0, 27)
}

/// The second mark of the first second of a minute mark.
pub open spec fn minute_first_second(minute: int) -> int {
    60 * minute + leap_seconds_before(minute)
}

/// The table is in strictly increasing order.
pub proof fn lemma_leap_seconds_table_sorted()
    ensures
        forall|i: int, j: int|
            0 <= i < j < 27 ==> LEAP_SECONDS_MARKS@[i] < LEAP_SECONDS_MARKS@[j],
        LEAP_SECONDS_MARKS@[0] == -14464800,
        LEAP_SECONDS_MARKS@[26] == 8942400,
{
    assert(LEAP_SECONDS_MARKS@ == seq![
        -14464800isize,
        -14199840isize,
        -13674240isize,
        -13148640isize,
        -12623040isize,
        -12096000isize,
        -11570400isize,
        -11044800isize,
        -10519200isize,
        -9731520isize,
        -9205920isize,
        -8680320isize,
        -7627680isize,
        -6311520isize,
        -5258880isize,
        -4733280isize,
        -3945600isize,
        -3420000isize,
        -2894400isize,
        -2103840isize,
        -1316160isize,
        -525600isize,
        3156480isize,
        4734720isize,
        6573600isize,
        8150400isize,
        8942400isize,
    ]);
}

/// Where the entries before `k` are at or before `minute` and the others
/// after it, `k` entries are counted.
proof fn lemma_count_split(minute: int, k: int, n: int)
    requires
        0 <= k <= 27,
        0 <= n <= 27,
        forall|j: int| 0 <= j < k ==> LEAP_SECONDS_MARKS@[j] <= minute,
        forall|j: int| k <= j < 27 ==> minute < LEAP_SECONDS_MARKS@[j],
    ensures
        leap_seconds_at_or_before(minute, n) == if n <= k {
            n
        } else {
            k
        },
    decreases n,
{
    if n > 0 {
        lemma_count_split(minute, k, n - 1);
    }
}

/// Minute 0 follows 22 leap seconds.
proof fn lemma_epoch_count()
    ensures
        leap_seconds_at_or_before(0, 27) == 22,
{
    lemma_leap_seconds_table_sorted();
    lemma_count_split(0, 22, 27);
}

/// The count of leap seconds before a minute is between -22 and 5, and is
/// one of these two before the first and after the last leap second.
pub proof fn lemma_leap_seconds_before_bounds(minute: int)
    ensures
        -22 <= leap_seconds_before(minute) <= 5,
        minute < LEAP_SECONDS_MARKS@[0] ==> leap_seconds_before(minute) == -22,
        minute >= LEAP_SECONDS_MARKS@[26] ==> leap_seconds_before(minute) == 5,
{
    lemma_epoch_count();
    lemma_leap_seconds_table_sorted();
    lemma_count_range(minute, 27);
    if minute < LEAP_SECONDS_MARKS@[0] {
        lemma_count_split(minute, 0, 27);
    }
    if minute >= LEAP_SECONDS_MARKS@[26] {
        lemma_count_split(minute, 27, 27);
    }
}

/// At most `n` of the first `n` entries are counted.
proof fn lemma_count_range(minute: int, n: int)
    requires
        0 <= n,
    ensures
        0 <= leap_seconds_at_or_before(minute, n) <= n,
    decreases n,
{
    if n > 0 {
        lemma_count_range(minute, n - 1);
    }
}

/// Counts the entries of the leap-second table at or before `minute`.
fn leap_seconds_at_or_before_minute(minute: Mark) -> (r: usize)
    ensures
        r == leap_seconds_at_or_before(minute as int, 27),
        r <= 27,
{
    proof {
        lemma_leap_seconds_table_sorted();
    }
    let mut leap_seconds: usize = LEAP_SECONDS_MARKS.len();
    while leap_seconds > 0 && minute < LEAP_SECONDS_MARKS[leap_seconds - 1]
        invariant
            leap_seconds <= 27,
            forall|j: int| leap_seconds <= j < 27 ==> minute < LEAP_SECONDS_MARKS@[j],
        decreases leap_seconds,
    {
        leap_seconds -= 1;
    }
    proof {
        lemma_count_split(minute as int, leap_seconds as int, 27);
    }
    leap_seconds
}

/// Returns the number of leap seconds between the first minute of
/// `EPOCH_YEAR` and `minute`, negative for earlier minutes.
pub fn leap_seconds_before_minute(minute: Mark) -> (r: Mark)
    ensures
        r == leap_seconds_before(minute as int),
{
    let leap_seconds = leap_seconds_at_or_before_minute(minute);
    // Minute 0 is the first minute of the epoch year.
    let leap_seconds_offset = leap_seconds_at_or_before_minute(0);
    leap_seconds as Mark - leap_seconds_offset as Mark
}

/// Converts a minute mark to the second mark of its first second.
///
/// This takes leap seconds into account.
pub fn minute_to_second(minute: Mark) -> (r: Mark)
    requires
        Mark::MIN <= minute_first_second(minute as int) <= Mark::MAX,
    ensures
        r == minute_first_second(minute as int),
{
    proof {
        lemma_leap_seconds_before_bounds(minute as int);
        assert(Mark::MIN <= -0x8000_0000 && Mark::MAX >= 0x7fff_ffff);
    }
    minute * 60 + leap_seconds_before_minute(minute)
}

/// Near a second, taking away the leap seconds counted at a minute close to
/// it stays in range.
proof fn lemma_second_without_leap_seconds(minute: int, second: int)
    requires
        second - 200 <= 60 * minute <= second + 200,
        Mark::MIN <= second <= Mark::MAX,
    ensures
        Mark::MIN <= second - leap_seconds_before(minute) <= Mark::MAX,
        Mark::MIN + 2 <= minute <= Mark::MAX - 2,
{
    lemma_leap_seconds_before_bounds(minute);
    assert(Mark::MIN <= -0x8000_0000 && Mark::MAX >= 0x7fff_ffff);
}

/// Whether `minute` starts at or before `second`.
fn starts_at_or_before(minute: Mark, second: Mark) -> (r: bool)
    requires
        second - 200 <= 60 * minute <= second + 200,
    ensures
        r == (minute_first_second(minute as int) <= second),
{
    proof {
        lemma_second_without_leap_seconds(minute as int, second as int);
    }
    let rest = second - leap_seconds_before_minute(minute);
    proof {
        lemma_floor_div_bounds(rest as int, 60);
    }
    divide_towards_negative_infinity(rest, 60) >= minute
}

/// Whether `minute` starts at or after `second`.
fn starts_at_or_after(minute: Mark, second: Mark) -> (r: bool)
    requires
        second - 200 <= 60 * minute <= second + 200,
    ensures
        r == (minute_first_second(minute as int) >= second),
{
    proof {
        lemma_second_without_leap_seconds(minute as int, second as int);
    }
    let rest = second - leap_seconds_before_minute(minute);
    proof {
        lemma_ceil_div_bounds(rest as int, 60);
    }
    divide_towards_positive_infinity(rest, 60) <= minute
}

/// Converts a second mark to the minute mark that contains it.
///
/// This takes leap seconds into account: the 61st second of a minute that
/// precedes a leap second belongs to that minute.
pub fn second_to_minute(second: Mark) -> (r: Mark)
    ensures
        minute_first_second(r as int) <= second < minute_first_second(r + 1),
{
    // There are never more than 27 leap seconds to take into account, so the
    // minute found from the leap seconds counted at this estimate is at most
    // one minute off.
    let estimate = divide_towards_negative_infinity(second, 60);
    proof {
        lemma_floor_div_bounds(second as int, 60);
        lemma_second_without_leap_seconds(estimate as int, second as int);
    }
    let minute = divide_towards_negative_infinity(second - leap_seconds_before_minute(estimate), 60);
    proof {
        lemma_floor_div_bounds(second - leap_seconds_before(estimate as int), 60);
        lemma_leap_seconds_before_bounds(estimate as int);
        lemma_leap_seconds_before_bounds(minute - 1);
        lemma_leap_seconds_before_bounds(minute as int);
        lemma_leap_seconds_before_bounds(minute + 1);
        lemma_leap_seconds_before_bounds(minute + 2);
        lemma_second_without_leap_seconds(minute as int, second as int);
    }
    if starts_at_or_before(minute + 1, second) {
        minute + 1
    } else if !starts_at_or_before(minute, second) {
        minute - 1
    } else {
        minute
    }
}

/// Converts a second mark to the first minute mark that starts at or after
/// it.
///
/// This takes leap seconds into account.
pub fn second_to_minute_up(second: Mark) -> (r: Mark)
    ensures
        minute_first_second(r - 1) < second <= minute_first_second(r as int),
{
    // As in `second_to_minute`, the first result is at most one minute off.
    let estimate = divide_towards_positive_infinity(second, 60);
    proof {
        lemma_ceil_div_bounds(second as int, 60);
        lemma_second_without_leap_seconds(estimate as int, second as int);
    }
    let minute = divide_towards_positive_infinity(second - leap_seconds_before_minute(estimate), 60);
    proof {
        lemma_ceil_div_bounds(second - leap_seconds_before(estimate as int), 60);
        lemma_leap_seconds_before_bounds(estimate as int);
        lemma_leap_seconds_before_bounds(minute - 2);
        lemma_leap_seconds_before_bounds(minute - 1);
        lemma_leap_seconds_before_bounds(minute as int);
        lemma_leap_seconds_before_bounds(minute + 1);
        lemma_second_without_leap_seconds(minute as int, second as int);
    }
    if starts_at_or_after(minute - 1, second) {
        minute - 1
    } else if !starts_at_or_after(minute, second) {
        minute + 1
    } else {
        minute
    }
}

/// The count of table entries at or before a minute never decreases as the
/// minute grows.
proof fn lemma_count_monotone(a: int, b: int, n: int)
    requires
        a <= b,
    ensures
        leap_seconds_at_or_before(a, n) <= leap_seconds_at_or_before(b, n),
    decreases n,
{
    if n > 0 {
        lemma_count_monotone(a, b, n - 1);
    }
}

/// From one minute to the next, the count grows by one exactly when the next
/// minute is in the table.
proof fn lemma_count_step(minute: int, n: int)
    requires
        0 <= n <= 27,
    ensures
        leap_seconds_at_or_before(minute + 1, n) - leap_seconds_at_or_before(minute, n) == if exists|
            i: int,
        | 0 <= i < n && LEAP_SECONDS_MARKS@[i] == minute + 1 {
            1int
        } else {
            0int
        },
    decreases n,
{
    if n > 0 {
        lemma_count_step(minute, n - 1);
        lemma_leap_seconds_table_sorted();
        if LEAP_SECONDS_MARKS@[n - 1] == minute + 1 {
            assert(!exists|i: int| 0 <= i < n - 1 && LEAP_SECONDS_MARKS@[i] == minute + 1);
        } else {
            assert forall|i: int| 0 <= i < n && LEAP_SECONDS_MARKS@[i] == minute + 1 implies 0 <= i
                < n - 1 by {}
        }
    }
}

/// A minute holds 61 seconds when the minute after it is in the leap-second
/// table, and 60 seconds otherwise.
pub proof fn lemma_minute_length(minute: int)
    ensures
        minute_first_second(minute + 1) - minute_first_second(minute) == if exists|i: int|
            0 <= i < 27 && LEAP_SECONDS_MARKS@[i] == minute + 1 {
            61int
        } else {
            60int
        },
{
    lemma_count_step(minute, 27);
}

/// Later minutes start at later seconds.
pub proof fn lemma_minute_first_second_increasing(a: int, b: int)
    requires
        a < b,
    ensures
        minute_first_second(a) < minute_first_second(b),
{
    lemma_count_monotone(a, b, 27);
}

/// Rounding a second down and up gives minutes that start at most 60
/// seconds away on either side of it and at most one minute apart; the
/// first second of a minute rounds to that minute both ways.
pub proof fn lemma_second_minute_round_trip(second: int, down: int, up: int, minute: int)
    requires
        minute_first_second(down) <= second < minute_first_second(down + 1),
        minute_first_second(up - 1) < second <= minute_first_second(up),
    ensures
        minute_first_second(down) <= second <= minute_first_second(up),
        second - minute_first_second(down) <= 60,
        minute_first_second(up) - second <= 60,
        0 <= up - down <= 1,
        minute_first_second(minute) <= minute_first_second(minute) < minute_first_second(
            minute + 1,
        ),
        minute_first_second(minute - 1) < minute_first_second(minute),
{
    lemma_minute_length(down);
    lemma_minute_length(up - 1);
    lemma_minute_length(minute);
    lemma_minute_length(minute - 1);
    if up < down {
        lemma_minute_first_second_increasing(up, down);
    }
    if up > down + 1 {
        lemma_minute_first_second_increasing(down + 1, up - 1);
    }
}

/// A second rounds to one minute only: the contracts of `second_to_minute`
/// and `second_to_minute_up` each fix their result.
pub proof fn lemma_second_minute_unique(second: int, a: int, b: int)
    ensures
        minute_first_second(a) <= second < minute_first_second(a + 1) && minute_first_second(b)
            <= second < minute_first_second(b + 1) ==> a == b,
        minute_first_second(a - 1) < second <= minute_first_second(a) && minute_first_second(b
            - 1) < second <= minute_first_second(b) ==> a == b,
{
    if a < b {
        lemma_minute_first_second_increasing(a, b);
        if a + 1 < b {
            lemma_minute_first_second_increasing(a + 1, b);
            lemma_minute_first_second_increasing(a, b - 1);
        }
    } else if b < a {
        lemma_minute_first_second_increasing(b, a);
        if b + 1 < a {
            lemma_minute_first_second_increasing(b + 1, a);
            lemma_minute_first_second_increasing(b, a - 1);
        }
    }
}

/// Rounding seconds to minutes, either way, never decreases as the second
/// grows.
pub proof fn lemma_second_to_minute_monotone(s1: int, s2: int, r1: int, r2: int, u1: int, u2: int)
    requires
        s1 <= s2,
        minute_first_second(r1) <= s1 < minute_first_second(r1 + 1),
        minute_first_second(r2) <= s2 < minute_first_second(r2 + 1),
        minute_first_second(u1 - 1) < s1 <= minute_first_second(u1),
        minute_first_second(u2 - 1) < s2 <= minute_first_second(u2),
    ensures
        r1 <= r2,
        u1 <= u2,
{
    if r1 > r2 {
        if r2 + 1 < r1 {
            lemma_minute_first_second_increasing(r2 + 1, r1);
        }
    }
    if u1 > u2 {
        if u2 < u1 - 1 {
            lemma_minute_first_second_increasing(u2, u1 - 1);
        }
    }
}

/// The minute mark of the first minute of the month `month_in_year` (1 to
/// 12) of `year`.
#[verifier::opaque]
pub open spec fn first_minute_of(year: int, month_in_year: int) -> int {
    (month_first_day(year_first_month(year) + month_in_year - 1) - 1) * 24 * 60
}

/// Each entry of the table is the first minute of a January or a July: the
/// leap seconds came at the end of June 1972, 1981 to 1983, 1985, 1992 to
/// 1994, 1997, 2012 and 2015, and at the end of December 1972 to 1979, 1987,
/// 1989, 1990, 1995, 1998, 2005, 2008 and 2016.
pub proof fn lemma_leap_second_dates()
    ensures
        LEAP_SECONDS_MARKS@[0] == first_minute_of(1972, 7),
        LEAP_SECONDS_MARKS@[1] == first_minute_of(1973, 1),
        LEAP_SECONDS_MARKS@[2] == first_minute_of(1974, 1),
        LEAP_SECONDS_MARKS@[3] == first_minute_of(1975, 1),
        LEAP_SECONDS_MARKS@[4] == first_minute_of(1976, 1),
        LEAP_SECONDS_MARKS@[5] == first_minute_of(1977, 1),
        LEAP_SECONDS_MARKS@[6] == first_minute_of(1978, 1),
        LEAP_SECONDS_MARKS@[7] == first_minute_of(1979, 1),
        LEAP_SECONDS_MARKS@[8] == first_minute_of(1980, 1),
        LEAP_SECONDS_MARKS@[9] == first_minute_of(1981, 7),
        LEAP_SECONDS_MARKS@[10] == first_minute_of(1982, 7),
        LEAP_SECONDS_MARKS@[11] == first_minute_of(1983, 7),
        LEAP_SECONDS_MARKS@[12] == first_minute_of(1985, 7),
        LEAP_SECONDS_MARKS@[13] == first_minute_of(1988, 1),
        LEAP_SECONDS_MARKS@[14] == first_minute_of(1990, 1),
        LEAP_SECONDS_MARKS@[15] == first_minute_of(1991, 1),
        LEAP_SECONDS_MARKS@[16] == first_minute_of(1992, 7),
        LEAP_SECONDS_MARKS@[17] == first_minute_of(1993, 7),
        LEAP_SECONDS_MARKS@[18] == first_minute_of(1994, 7),
        LEAP_SECONDS_MARKS@[19] == first_minute_of(1996, 1),
        LEAP_SECONDS_MARKS@[20] == first_minute_of(1997, 7),
        LEAP_SECONDS_MARKS@[21] == first_minute_of(1999, 1),
        LEAP_SECONDS_MARKS@[22] == first_minute_of(2006, 1),
        LEAP_SECONDS_MARKS@[23] == first_minute_of(2009, 1),
        LEAP_SECONDS_MARKS@[24] == first_minute_of(2012, 7),
        LEAP_SECONDS_MARKS@[25] == first_minute_of(2015, 7),
        LEAP_SECONDS_MARKS@[26] == first_minute_of(2017, 1),
{
    assert(LEAP_SECONDS_MARKS@ == seq![
        -14464800isize,
        -14199840isize,
        -13674240isize,
        -13148640isize,
        -12623040isize,
        -12096000isize,
        -11570400isize,
        -11044800isize,
        -10519200isize,
        -9731520isize,
        -9205920isize,
        -8680320isize,
        -7627680isize,
        -6311520isize,
        -5258880isize,
        -4733280isize,
        -3945600isize,
        -3420000isize,
        -2894400isize,
        -2103840isize,
        -1316160isize,
        -525600isize,
        3156480isize,
        4734720isize,
        6573600isize,
        8150400isize,
        8942400isize,
    ]);
    assert(LEAP_SECONDS_MARKS@[0] == first_minute_of(1972, 7)) by {
        lemma_first_minutes(1972);
    }
    assert(LEAP_SECONDS_MARKS@[1] == first_minute_of(1973, 1)) by {
        lemma_first_minutes(1973);
    }
    assert(LEAP_SECONDS_MARKS@[2] == first_minute_of(1974, 1)) by {
        lemma_first_minutes(1974);
    }
    assert(LEAP_SECONDS_MARKS@[3] == first_minute_of(1975, 1)) by {
        lemma_first_minutes(1975);
    }
    assert(LEAP_SECONDS_MARKS@[4] == first_minute_of(1976, 1)) by {
        lemma_first_minutes(1976);
    }
    assert(LEAP_SECONDS_MARKS@[5] == first_minute_of(1977, 1)) by {
        lemma_first_minutes(1977);
    }
    assert(LEAP_SECONDS_MARKS@[6] == first_minute_of(1978, 1)) by {
        lemma_first_minutes(1978);
    }
    assert(LEAP_SECONDS_MARKS@[7] == first_minute_of(1979, 1)) by {
        lemma_first_minutes(1979);
    }
    assert(LEAP_SECONDS_MARKS@[8] == first_minute_of(1980, 1)) by {
        lemma_first_minutes(1980);
    }
    assert(LEAP_SECONDS_MARKS@[9] == first_minute_of(1981, 7)) by {
        lemma_first_minutes(1981);
    }
    assert(LEAP_SECONDS_MARKS@[10] == first_minute_of(1982, 7)) by {
        lemma_first_minutes(1982);
    }
    assert(LEAP_SECONDS_MARKS@[11] == first_minute_of(1983, 7)) by {
        lemma_first_minutes(1983);
    }
    assert(LEAP_SECONDS_MARKS@[12] == first_minute_of(1985, 7)) by {
        lemma_first_minutes(1985);
    }
    assert(LEAP_SECONDS_MARKS@[13] == first_minute_of(1988, 1)) by {
        lemma_first_minutes(1988);
    }
    assert(LEAP_SECONDS_MARKS@[14] == first_minute_of(1990, 1)) by {
        lemma_first_minutes(1990);
    }
    assert(LEAP_SECONDS_MARKS@[15] == first_minute_of(1991, 1)) by {
        lemma_first_minutes(1991);
    }
    assert(LEAP_SECONDS_MARKS@[16] == first_minute_of(1992, 7)) by {
        lemma_first_minutes(1992);
    }
    assert(LEAP_SECONDS_MARKS@[17] == first_minute_of(1993, 7)) by {
        lemma_first_minutes(1993);
    }
    assert(LEAP_SECONDS_MARKS@[18] == first_minute_of(1994, 7)) by {
        lemma_first_minutes(1994);
    }
    assert(LEAP_SECONDS_MARKS@[19] == first_minute_of(1996, 1)) by {
        lemma_first_minutes(1996);
    }
    assert(LEAP_SECONDS_MARKS@[20] == first_minute_of(1997, 7)) by {
        lemma_first_minutes(1997);
    }
    assert(LEAP_SECONDS_MARKS@[21] == first_minute_of(1999, 1)) by {
        lemma_first_minutes(1999);
    }
    assert(LEAP_SECONDS_MARKS@[22] == first_minute_of(2006, 1)) by {
        lemma_first_minutes(2006);
    }
    assert(LEAP_SECONDS_MARKS@[23] == first_minute_of(2009, 1)) by {
        lemma_first_minutes(2009);
    }
    assert(LEAP_SECONDS_MARKS@[24] == first_minute_of(2012, 7)) by {
        lemma_first_minutes(2012);
    }
    assert(LEAP_SECONDS_MARKS@[25] == first_minute_of(2015, 7)) by {
        lemma_first_minutes(2015);
    }
    assert(LEAP_SECONDS_MARKS@[26] == first_minute_of(2017, 1)) by {
        lemma_first_minutes(2017);
    }
}

/// The first minutes of the January and the July of a year.
proof fn lemma_first_minutes(year: int)
    ensures
        first_minute_of(year, 1) == days_before_zyear(year - EPOCH_YEAR) * 1440,
        first_minute_of(year, 7) == (days_before_zyear(year - EPOCH_YEAR) + if is_leap_year(
            year,
        ) {
            182int
        } else {
            181int
        }) * 1440,
{
    reveal(first_minute_of);
    lemma_month_first_day_in_year(year - EPOCH_YEAR, 1);
    lemma_month_first_day_in_year(year - EPOCH_YEAR, 7);
    assert(year_first_month(year) == (year - EPOCH_YEAR) * 12 + 1);
    reveal_with_fuel(days_before_month, 7);
}

} // verus!
