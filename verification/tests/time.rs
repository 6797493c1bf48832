use time::{Date, Month, OffsetDateTime, Time, UtcOffset};
use utf8_scan::time::{format_moment, now, now_precise, of, precise_of, Moment, SHOWN_OFFSET};

#[test]
fn time_test() {
    assert!(now().is_some());
    assert!(now_precise().is_some());

    assert_eq!(
        precise_of(
            OffsetDateTime::new_in_offset(
                Date::from_calendar_date(2025, Month::January, 28).unwrap(),
                Time::from_hms_micro(23, 04, 0, 1123).unwrap(),
                UtcOffset::from_whole_seconds(8 * 3600).unwrap(),
            )
            .unix_timestamp_nanos()
        )
        .unwrap()
        .as_str(),
        "A30128-2304-0000.1123"
    );
}

#[test]
fn now_has_the_shape_of_a_moment() {
    let short = now().unwrap();
    let long = now_precise().unwrap();
    assert_eq!(short.len(), 16);
    assert_eq!(long.len(), 21);
    for text in [&short, &long] {
        let bytes = text.as_bytes();
        assert!(bytes[0].is_ascii_uppercase());
        assert_eq!(bytes[6], b'-');
        assert_eq!(bytes[11], b'-');
        for i in [1, 2, 3, 4, 5, 7, 8, 9, 10, 12, 13, 14, 15] {
            assert!(bytes[i].is_ascii_digit());
        }
    }
    assert_eq!(long.as_bytes()[16], b'.');
    assert_eq!(short[..6], long[..6]);
}

#[test]
fn the_same_moment_in_any_offset() {
    let date = Date::from_calendar_date(2024, Month::February, 29).unwrap();
    let at = OffsetDateTime::new_utc(date, Time::from_hms_micro(17, 30, 59, 987_654).unwrap());
    assert_eq!(of(at.unix_timestamp_nanos()).unwrap(), "A20301-0130-5998");
    assert_eq!(precise_of(at.unix_timestamp_nanos()).unwrap(), "A20301-0130-5998.7654");
    let moved = at.to_offset(UtcOffset::from_hms(-7, 0, 0).unwrap());
    assert_eq!(of(moved.unix_timestamp_nanos()).unwrap(), "A20301-0130-5998");
    assert_eq!(SHOWN_OFFSET, 28800);
}

#[test]
fn the_start_of_unix_time() {
    assert_eq!(of(0).unwrap(), "O80101-0800-0000");
    assert_eq!(precise_of(0).unwrap(), "O80101-0800-0000.0000");
    assert_eq!(precise_of(-1_000).unwrap(), "O80101-0759-5999.9999");
    assert_eq!(precise_of(1_000).unwrap(), "O80101-0800-0000.0001");
}

#[test]
fn moments_that_the_calendar_does_not_reach() {
    assert_eq!(of(i128::MAX), None);
    assert_eq!(precise_of(i128::MIN), None);
    let last = OffsetDateTime::new_utc(
        Date::from_calendar_date(9999, Month::December, 31).unwrap(),
        Time::from_hms(23, 0, 0).unwrap(),
    );
    assert_eq!(of(last.unix_timestamp_nanos()), None);
    let before = OffsetDateTime::new_utc(
        Date::from_calendar_date(9999, Month::December, 31).unwrap(),
        Time::from_hms(15, 59, 59).unwrap(),
    );
    assert_eq!(of(before.unix_timestamp_nanos()).unwrap(), "R71231-2359-5900");
}

#[test]
fn moments_written_out() {
    let mut m = Moment {
        year: 2022,
        month: 1,
        day: 1,
        hour: 0,
        minute: 0,
        second: 0,
        microsecond: 0,
    };
    assert!(m.is_valid());
    assert_eq!(format_moment(&m, false), "A00101-0000-0000");
    assert_eq!(format_moment(&m, true), "A00101-0000-0000.0000");
    m.year = 2221;
    m.month = 12;
    m.day = 31;
    m.hour = 23;
    m.minute = 59;
    m.second = 59;
    m.microsecond = 999_999;
    assert_eq!(format_moment(&m, false), "T91231-2359-5999");
    assert_eq!(format_moment(&m, true), "T91231-2359-5999.9999");
    m.year = 2222;
    assert_eq!(format_moment(&m, false), "A01231-2359-5999");
    m.year = 2021;
    assert_eq!(format_moment(&m, false), "T91231-2359-5999");
    m.year = 1;
    assert_eq!(format_moment(&m, false), "R91231-2359-5999");
    m.year = 0;
    assert_eq!(format_moment(&m, false), "r81231-2359-5999");
    m.year = -9999;
    assert_eq!(format_moment(&m, false), "r91231-2359-5999");
    m.year = i32::MAX;
    m.microsecond = 120_034;
    assert_eq!(format_moment(&m, true), "C51231-2359-5912.0034");
    m.year = i32::MIN;
    assert_eq!(format_moment(&m, true), "n01231-2359-5912.0034");
}

#[test]
fn moments_that_no_clock_shows() {
    let m = Moment { year: 2022, month: 1, day: 1, hour: 0, minute: 0, second: 0, microsecond: 0 };
    assert!(m.is_valid());
    assert!(!Moment { month: 0, ..m }.is_valid());
    assert!(!Moment { month: 13, ..m }.is_valid());
    assert!(Moment { month: 12, ..m }.is_valid());
    assert!(!Moment { day: 0, ..m }.is_valid());
    assert!(!Moment { day: 32, ..m }.is_valid());
    assert!(Moment { day: 31, ..m }.is_valid());
    assert!(!Moment { hour: 24, ..m }.is_valid());
    assert!(!Moment { minute: 60, ..m }.is_valid());
    assert!(!Moment { second: 60, ..m }.is_valid());
    assert!(!Moment { microsecond: 1_000_000, ..m }.is_valid());
    assert!(Moment { hour: 23, minute: 59, second: 59, microsecond: 999_999, ..m }.is_valid());
}
