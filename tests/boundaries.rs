use timelane::subsecond::{
    microsecond_to_second, microsecond_to_second_up, millisecond_to_second,
    millisecond_to_second_up, nanosecond_to_second, nanosecond_to_second_up,
    second_to_microsecond, second_to_millisecond, second_to_nanosecond,
};
use timelane::{
    day_to_hour, day_to_month, day_to_month_up, hour_to_day, hour_to_day_up, hour_to_minute,
    leap_days_before_year, leap_seconds_before_minute, minute_to_hour, minute_to_hour_up,
    minute_to_second, month_to_day, month_to_year, month_to_year_up, second_to_minute,
    second_to_minute_up, year_to_month, Mark, LEAP_SECONDS_MARKS,
};

#[test]
fn year_to_month_examples() {
    assert_eq!(year_to_month(1999), -11);
    assert_eq!(year_to_month(2000), 1);
    assert_eq!(year_to_month(2001), 13);
    assert_eq!(year_to_month(-768614336404562650), Mark::MIN + 9);
    assert_eq!(year_to_month(768614336404566650), Mark::MAX - 6);
}

#[test]
fn month_to_day_examples() {
    assert_eq!(month_to_day(0), -30);
    assert_eq!(month_to_day(1), 1);
    assert_eq!(month_to_day(2), 32);
    assert_eq!(month_to_day(3), 61);
    assert_eq!(month_to_day(13), 367);
    assert_eq!(month_to_day(-303032819133198653), Mark::MIN + 26);
    assert_eq!(month_to_day(303032819133198655), Mark::MAX - 25);
}

#[test]
fn day_to_hour_examples() {
    assert_eq!(day_to_hour(-384307168202282324), Mark::MIN + 8);
    assert_eq!(day_to_hour(384307168202282326), Mark::MAX - 7);
}

#[test]
fn hour_to_minute_examples() {
    assert_eq!(hour_to_minute(-1), -60);
    assert_eq!(hour_to_minute(-153722867280912930), Mark::MIN + 8);
    assert_eq!(hour_to_minute(153722867280912930), Mark::MAX - 7);
}

#[test]
fn minute_to_second_examples() {
    assert_eq!(minute_to_second(-1), -60);
    assert_eq!(minute_to_second(-153722867280912929), Mark::MIN + 46);
    assert_eq!(minute_to_second(153722867280912930), Mark::MAX - 2);
}

#[test]
fn second_to_minute_examples() {
    assert_eq!(second_to_minute(-59), -1);
    assert_eq!(second_to_minute(-1), -1);
    assert_eq!(second_to_minute(0), 0);
    assert_eq!(second_to_minute(59), 0);
    assert_eq!(second_to_minute(60), 1);
    assert_eq!(second_to_minute(Mark::MIN), -153722867280912930);
    assert_eq!(second_to_minute(Mark::MAX), 153722867280912930);
}

#[test]
fn second_to_minute_up_examples() {
    assert_eq!(second_to_minute_up(-59), 0);
    assert_eq!(second_to_minute_up(-1), 0);
    assert_eq!(second_to_minute_up(0), 0);
    assert_eq!(second_to_minute_up(1), 1);
    assert_eq!(second_to_minute_up(59), 1);
    assert_eq!(second_to_minute_up(60), 1);
    assert_eq!(second_to_minute_up(Mark::MIN), -153722867280912929);
    assert_eq!(second_to_minute_up(Mark::MAX), 153722867280912931);
}

#[test]
fn leap_second_of_june_1972_belongs_to_its_minute() {
    let next_minute = LEAP_SECONDS_MARKS[0];
    let leap_second = minute_to_second(next_minute) - 1;
    assert_eq!(leap_second, -867888022);
    assert_eq!(minute_to_second(next_minute) - minute_to_second(next_minute - 1), 61);
    assert_eq!(second_to_minute(leap_second), next_minute - 1);
    assert_eq!(second_to_minute_up(leap_second), next_minute);
    assert_eq!(second_to_minute(leap_second + 1), next_minute);
}

#[test]
fn leap_second_of_december_2016_belongs_to_its_minute() {
    let next_minute = LEAP_SECONDS_MARKS[26];
    let first_second = minute_to_second(next_minute - 1);
    assert_eq!(first_second, 536543944);
    assert_eq!(minute_to_second(next_minute) - first_second, 61);
    assert_eq!(second_to_minute_up(first_second + 1), next_minute);
    assert_eq!(second_to_minute_up(first_second + 60), next_minute);
    assert_eq!(second_to_minute(first_second + 60), next_minute - 1);
    assert_eq!(second_to_minute_up(first_second), next_minute - 1);
}

#[test]
fn every_second_near_each_leap_second_rounds_both_ways() {
    for &next_minute in LEAP_SECONDS_MARKS.iter() {
        for second in minute_to_second(next_minute - 2)..minute_to_second(next_minute + 2) {
            let down = second_to_minute(second);
            assert!(minute_to_second(down) <= second && second < minute_to_second(down + 1));
            let up = second_to_minute_up(second);
            assert!(minute_to_second(up - 1) < second && second <= minute_to_second(up));
        }
    }
}

#[test]
fn minute_to_hour_examples() {
    assert_eq!(minute_to_hour(-59), -1);
    assert_eq!(minute_to_hour(-1), -1);
    assert_eq!(minute_to_hour(Mark::MIN), -153722867280912931);
    assert_eq!(minute_to_hour(Mark::MAX), 153722867280912930);
    assert_eq!(minute_to_hour_up(-59), 0);
    assert_eq!(minute_to_hour_up(-1), 0);
    assert_eq!(minute_to_hour_up(0), 0);
    assert_eq!(minute_to_hour_up(59), 1);
    assert_eq!(minute_to_hour_up(60), 1);
    assert_eq!(minute_to_hour_up(Mark::MIN), -153722867280912930);
    assert_eq!(minute_to_hour_up(Mark::MAX), 153722867280912931);
}

#[test]
fn hour_to_day_examples() {
    assert_eq!(hour_to_day(-23), 0);
    assert_eq!(hour_to_day(-1), 0);
    assert_eq!(hour_to_day(Mark::MIN), -384307168202282325);
    assert_eq!(hour_to_day(Mark::MAX), 384307168202282326);
    assert_eq!(hour_to_day_up(-23), 1);
    assert_eq!(hour_to_day_up(-1), 1);
    assert_eq!(hour_to_day_up(0), 1);
    assert_eq!(hour_to_day_up(23), 2);
    assert_eq!(hour_to_day_up(24), 2);
    assert_eq!(hour_to_day_up(Mark::MIN), -384307168202282324);
    assert_eq!(hour_to_day_up(Mark::MAX), 384307168202282327);
}

#[test]
fn day_to_month_examples() {
    assert_eq!(day_to_month(32), 2);
    assert_eq!(day_to_month(31), 1);
    assert_eq!(day_to_month(1), 1);
    assert_eq!(day_to_month(0), 0);
    assert_eq!(day_to_month(Mark::MIN), -303032819133198654);
    assert_eq!(day_to_month(Mark::MAX), 303032819133198655);
}

#[test]
fn day_to_month_up_examples() {
    assert_eq!(day_to_month_up(32), 2);
    assert_eq!(day_to_month_up(31), 2);
    assert_eq!(day_to_month_up(2), 2);
    assert_eq!(day_to_month_up(1), 1);
    assert_eq!(day_to_month_up(0), 1);
    assert_eq!(day_to_month_up(Mark::MIN), -303032819133198653);
    assert_eq!(day_to_month_up(Mark::MAX), 303032819133198656);
}

#[test]
fn days_near_both_extremes_round_both_ways() {
    for offset in 0..1000 {
        for day in [Mark::MIN + offset, Mark::MAX - offset] {
            let down = day_to_month(day);
            assert!(down <= day_to_month_up(day));
            assert!(day_to_month_up(day) - down <= 1);
        }
    }
    for day in [Mark::MIN + 2000, Mark::MAX - 2000] {
        let down = day_to_month(day);
        assert!(month_to_day(down) <= day && day < month_to_day(down + 1));
        let up = day_to_month_up(day);
        assert!(month_to_day(up - 1) < day && day <= month_to_day(up));
    }
}

#[test]
fn month_to_year_examples() {
    assert_eq!(month_to_year(0), 1999);
    assert_eq!(month_to_year(1), 2000);
    assert_eq!(month_to_year(12), 2000);
    assert_eq!(month_to_year(13), 2001);
    assert_eq!(month_to_year(Mark::MIN), -768614336404562651);
    assert_eq!(month_to_year(Mark::MAX), 768614336404566650);
    assert_eq!(month_to_year_up(0), 2000);
    assert_eq!(month_to_year_up(1), 2000);
    assert_eq!(month_to_year_up(2), 2001);
    assert_eq!(month_to_year_up(12), 2001);
    assert_eq!(month_to_year_up(13), 2001);
    assert_eq!(month_to_year_up(Mark::MIN), -768614336404562650);
    assert_eq!(month_to_year_up(Mark::MAX), 768614336404566651);
}

#[test]
fn leap_days_examples() {
    assert_eq!(1, leap_days_before_year(5));
    assert_eq!(0, leap_days_before_year(1));
    assert_eq!(-1, leap_days_before_year(0));
    assert_eq!(-2, leap_days_before_year(-4));
    assert_eq!(484, leap_days_before_year(2000));
    assert_eq!(
        leap_days_before_year(Mark::MIN + 400) - leap_days_before_year(Mark::MIN),
        97
    );
    assert!(leap_days_before_year(Mark::MAX) > 0);
}

#[test]
fn leap_seconds_examples() {
    assert_eq!(leap_seconds_before_minute(0), 0);
    assert_eq!(leap_seconds_before_minute(20 * 365 * 24 * 60), 5);
    assert_eq!(leap_seconds_before_minute(Mark::MIN), -22);
    assert_eq!(leap_seconds_before_minute(Mark::MAX), 5);
    assert_eq!(leap_seconds_before_minute(-1), 0);
    assert_eq!(leap_seconds_before_minute(-525600), 0);
    assert_eq!(leap_seconds_before_minute(-525601), -1);
}

#[test]
fn leap_second_table_is_increasing() {
    for i in 1..LEAP_SECONDS_MARKS.len() {
        assert!(LEAP_SECONDS_MARKS[i - 1] < LEAP_SECONDS_MARKS[i]);
    }
}

#[test]
fn scalers_never_decrease() {
    let samples: [Mark; 9] = [Mark::MIN, Mark::MIN + 1, -1_000_000, -61, -1, 0, 59, 1_000_000, Mark::MAX];
    for pair in samples.windows(2) {
        let (a, b) = (pair[0], pair[1]);
        assert!(second_to_minute(a) <= second_to_minute(b));
        assert!(second_to_minute_up(a) <= second_to_minute_up(b));
        assert!(minute_to_hour(a) <= minute_to_hour(b));
        assert!(hour_to_day_up(a) <= hour_to_day_up(b));
        assert!(day_to_month(a) <= day_to_month(b));
        assert!(day_to_month_up(a) <= day_to_month_up(b));
        assert!(month_to_year(a) <= month_to_year(b));
        assert!(nanosecond_to_second(a) <= nanosecond_to_second(b));
        assert!(leap_seconds_before_minute(a) <= leap_seconds_before_minute(b));
    }
}

#[test]
fn month_lengths_across_a_leap_century() {
    let lengths = [31, 29, 31, 30, 31, 30, 31, 31, 30, 31, 30, 31];
    let first = year_to_month(2000);
    for k in 0..12 {
        assert_eq!(month_to_day(first + k + 1) - month_to_day(first + k), lengths[k as usize]);
    }
    let first = year_to_month(1900);
    assert_eq!(month_to_day(first + 2) - month_to_day(first + 1), 28);
    let first = year_to_month(-400);
    assert_eq!(month_to_day(first + 2) - month_to_day(first + 1), 29);
}

#[test]
fn nanosecond_examples() {
    assert_eq!(nanosecond_to_second(0), 0);
    assert_eq!(nanosecond_to_second(999_999_999), 0);
    assert_eq!(nanosecond_to_second(1_000_000_000), 1);
    assert_eq!(nanosecond_to_second(-1), -1);
    assert_eq!(nanosecond_to_second(Mark::MIN), -9_223_372_037);
    assert_eq!(nanosecond_to_second(Mark::MAX), 9_223_372_036);
    assert_eq!(nanosecond_to_second_up(0), 0);
    assert_eq!(nanosecond_to_second_up(1), 1);
    assert_eq!(nanosecond_to_second_up(1_000_000_000), 1);
    assert_eq!(nanosecond_to_second_up(Mark::MIN), -9_223_372_036);
    assert_eq!(nanosecond_to_second_up(Mark::MAX), 9_223_372_037);
    assert_eq!(second_to_nanosecond(0), 0);
    assert_eq!(second_to_nanosecond(1), 1_000_000_000);
    assert_eq!(second_to_nanosecond(-9_223_372_036), Mark::MIN + 854_775_808);
    assert_eq!(second_to_nanosecond(9_223_372_036), Mark::MAX - 854_775_807);
}

#[test]
fn microsecond_examples() {
    assert_eq!(microsecond_to_second(0), 0);
    assert_eq!(microsecond_to_second(999_999), 0);
    assert_eq!(microsecond_to_second(1_000_000), 1);
    assert_eq!(microsecond_to_second(Mark::MIN), -9_223_372_036_855);
    assert_eq!(microsecond_to_second(Mark::MAX), 9_223_372_036_854);
    assert_eq!(microsecond_to_second_up(0), 0);
    assert_eq!(microsecond_to_second_up(1), 1);
    assert_eq!(microsecond_to_second_up(1_000_000), 1);
    assert_eq!(microsecond_to_second_up(Mark::MIN), -9_223_372_036_854);
    assert_eq!(microsecond_to_second_up(Mark::MAX), 9_223_372_036_855);
    assert_eq!(second_to_microsecond(0), 0);
    assert_eq!(second_to_microsecond(1), 1_000_000);
    assert_eq!(second_to_microsecond(-9_223_372_036_854), Mark::MIN + 775_808);
    assert_eq!(second_to_microsecond(9_223_372_036_854), Mark::MAX - 775_807);
}

#[test]
fn millisecond_examples() {
    assert_eq!(millisecond_to_second(0), 0);
    assert_eq!(millisecond_to_second(999), 0);
    assert_eq!(millisecond_to_second(1_000), 1);
    assert_eq!(millisecond_to_second(Mark::MIN), -9_223_372_036_854_776);
    assert_eq!(millisecond_to_second(Mark::MAX), 9_223_372_036_854_775);
    assert_eq!(millisecond_to_second_up(0), 0);
    assert_eq!(millisecond_to_second_up(1), 1);
    assert_eq!(millisecond_to_second_up(1_000), 1);
    assert_eq!(millisecond_to_second_up(Mark::MIN), -9_223_372_036_854_775);
    assert_eq!(millisecond_to_second_up(Mark::MAX), 9_223_372_036_854_776);
    assert_eq!(second_to_millisecond(0), 0);
    assert_eq!(second_to_millisecond(1), 1_000);
    assert_eq!(second_to_millisecond(-9_223_372_036_854_775), Mark::MIN + 808);
    assert_eq!(second_to_millisecond(9_223_372_036_854_775), Mark::MAX - 807);
}
