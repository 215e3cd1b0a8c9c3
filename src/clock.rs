//! Days, hours and minutes: lanes of fixed ratios.
use vstd::prelude::*;

use crate::rounding::{
    ceil_div, divide_towards_negative_infinity, divide_towards_positive_infinity, floor_div,
};
use crate::Mark;

verus! {

/// Converts a day mark to the hour mark of its first hour.
///
/// Day one is hour zero.
pub fn day_to_hour(day: Mark) -> (r: Mark)
    requires
        Mark::MIN <= (day - 1) * 24 <= Mark::MAX,
    ensures
        r == (day - 1) * 24,
{
    let zday = day - 1;
    zday * 24
}

/// Converts an hour mark to the minute mark of its first minute.
pub fn hour_to_minute(hour: Mark) -> (r: Mark)
    requires
        Mark::MIN <= hour * 60 <= Mark::MAX,
    ensures
        r == hour * 60,
{
    hour * 60
}

/// Converts a minute mark to the hour mark that contains it.
pub fn minute_to_hour(minute: Mark) -> (r: Mark)
    ensures
        r == floor_div(minute as int, 60),
{
    divide_towards_negative_infinity(minute, 60)
}

/// Converts a minute mark to the first hour mark that starts at or after it.
pub fn minute_to_hour_up(minute: Mark) -> (r: Mark)
    ensures
        r == ceil_div(minute as int, 60),
{
    divide_towards_positive_infinity(minute, 60)
}

/// Converts an hour mark to the day mark that contains it.
///
/// Hour zero is day one.
pub fn hour_to_day(hour: Mark) -> (r: Mark)
    ensures
        r == floor_div(hour as int, 24) + 1,
{
    divide_towards_negative_infinity(hour, 24) + 1
}

/// Converts an hour mark to the first day mark that starts at or after it.
///
/// Hour zero is day one.
pub fn hour_to_day_up(hour: Mark) -> (r: Mark)
    ensures
        r == ceil_div(hour as int, 24) + 1,
{
    divide_towards_positive_infinity(hour, 24) + 1
}

} // verus!
