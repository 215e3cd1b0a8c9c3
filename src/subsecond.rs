//! Milli-, micro- and nanoseconds: lanes below the second.
//!
//! These lanes are uniform: a second always holds the same number of each.
//! Combined with coarse lanes they narrow the range of usable marks: with
//! 64-bit marks, nanoseconds reach about 292 years on either side of the
//! epoch.
use vstd::prelude::*;

use crate::rounding::{
    ceil_div, divide_towards_negative_infinity, divide_towards_positive_infinity, floor_div,
};
use crate::Mark;

verus! {

/// Converts a nanosecond mark to the second mark that contains it.
pub fn nanosecond_to_second(mark: Mark) -> (r: Mark)
    ensures
        r == floor_div(mark as int, 1_000_000_000),
{
    divide_towards_negative_infinity(mark, 1_000_000_000)
}

/// Converts a nanosecond mark to the first second mark at or after it.
pub fn nanosecond_to_second_up(mark: Mark) -> (r: Mark)
    ensures
        r == ceil_div(mark as int, 1_000_000_000),
{
    divide_towards_positive_infinity(mark, 1_000_000_000)
}

/// Converts a second mark to the nanosecond mark of its first nanosecond.
pub fn second_to_nanosecond(mark: Mark) -> (r: Mark)
    requires
        Mark::MIN <= mark * 1_000_000_000 <= Mark::MAX,
    ensures
        r == mark * 1_000_000_000,
{
    mark * 1_000_000_000
}

/// Converts a microsecond mark to the second mark that contains it.
pub fn microsecond_to_second(mark: Mark) -> (r: Mark)
    ensures
        r == floor_div(mark as int, 1_000_000),
{
    divide_towards_negative_infinity(mark, 1_000_000)
}

/// Converts a microsecond mark to the first second mark at or after it.
pub fn microsecond_to_second_up(mark: Mark) -> (r: Mark)
    ensures
        r == ceil_div(mark as int, 1_000_000),
{
    divide_towards_positive_infinity(mark, 1_000_000)
}

/// Converts a second mark to the microsecond mark of its first microsecond.
pub fn second_to_microsecond(mark: Mark) -> (r: Mark)
    requires
        Mark::MIN <= mark * 1_000_000 <= Mark::MAX,
    ensures
        r == mark * 1_000_000,
{
    mark * 1_000_000
}

/// Converts a millisecond mark to the second mark that contains it.
pub fn millisecond_to_second(mark: Mark) -> (r: Mark)
    ensures
        r == floor_div(mark as int, 1_000),
{
    divide_towards_negative_infinity(mark, 1_000)
}

/// Converts a millisecond mark to the first second mark at or after it.
pub fn millisecond_to_second_up(mark: Mark) -> (r: Mark)
    ensures
        r == ceil_div(mark as int, 1_000),
{
    divide_towards_positive_infinity(mark, 1_000)
}

/// Converts a second mark to the millisecond mark of its first millisecond.
pub fn second_to_millisecond(mark: Mark) -> (r: Mark)
    requires
        Mark::MIN <= mark * 1_000 <= Mark::MAX,
    ensures
        r == mark * 1_000,
{
    mark * 1_000
}

} // verus!
