//! Conversions between the marks of time lanes: nanoseconds, seconds,
//! minutes, hours, days, months and years.
//!
//! Each lane numbers its marks with signed integers. A scaler converts a mark
//! of one lane into a mark of an adjacent lane; scalers compose to cross
//! several lanes. Going from a finer lane to a coarser one rounds either down
//! (to the unit that contains the mark) or up (to the first unit that starts
//! at or after the mark).
//!
//!  - Years before 1AD use astronomical numbering: 1BC is year `0`, 2BC is `-1`.
//!  - Leap years follow the proleptic Gregorian calendar, for every year.
//!  - The minutes that precede a UTC leap second hold 61 seconds.
use vstd::prelude::*;

pub mod calendar;
pub mod clock;
pub mod leap_seconds;
pub mod rounding;
pub mod subsecond;

pub use calendar::{
    day_to_month, day_to_month_up, leap_days_before_year, month_to_day, month_to_year,
    month_to_year_up, year_to_month,
};
pub use clock::{day_to_hour, hour_to_day, hour_to_day_up, hour_to_minute, minute_to_hour, minute_to_hour_up};
pub use leap_seconds::{
    leap_seconds_before_minute, minute_to_second, second_to_minute, second_to_minute_up,
    LEAP_SECONDS_MARKS,
};
pub use rounding::{divide_towards_negative_infinity, divide_towards_positive_infinity};

verus! {

/// A specific point on a time lane.
pub type Mark = isize;

/// A function that converts a mark of one lane into a mark of another.
pub type Scaler = fn(Mark) -> Mark;

/// The year whose first second is second mark 0, and whose January is month mark 1.
pub const EPOCH_YEAR: Mark = 2000;

} // verus!
