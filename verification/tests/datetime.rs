use utf8_scan::cycle::year_in_cycle;
use utf8_scan::datetime::{Katetime, WallTime};

#[test]
fn datetime_test() {
    let kt_safe = Katetime { show_date: true, show_time: true, url_safe: true };
    let kt_human = Katetime { show_date: true, show_time: true, url_safe: false };

    let years = [1970, 2000, 2010, 2021, 2022, 2033, 2221, 2222];

    let safe = [
        "o81123-0456-0789",
        "r81123-0456-0789",
        "s81123-0456-0789",
        "t91123-0456-0789",
        "A01123-0456-0789",
        "B11123-0456-0789",
        "T91123-0456-0789",
        "A01123-0456-0789",
    ];
    for (year, ans) in years.iter().zip(safe.iter()) {
        let dt = WallTime::new(*year, 11, 23, 4, 56, 7, 890_000_000).unwrap();
        assert_eq!(kt_safe.generate(&dt), *ans);
    }

    let human = [
        "o8~11/23 04:56:07",
        "r8~11/23 04:56:07",
        "s8~11/23 04:56:07",
        "t9~11/23 04:56:07",
        "A0~11/23 04:56:07",
        "B1~11/23 04:56:07",
        "T9~11/23 04:56:07",
        "A0~11/23 04:56:07",
    ];
    for (year, ans) in years.iter().zip(human.iter()) {
        let dt = WallTime::new(*year, 11, 23, 4, 56, 7, 890_000_000).unwrap();
        assert_eq!(kt_human.generate(&dt), *ans);
    }
}

#[test]
fn parts_of_a_reading() {
    let dt = WallTime::new(2024, 2, 29, 9, 5, 3, 7_000_000).unwrap();
    let kt = |show_date, show_time, url_safe| Katetime { show_date, show_time, url_safe };
    assert_eq!(kt(false, false, false).generate(&dt), "");
    assert_eq!(kt(false, false, true).generate(&dt), "");
    assert_eq!(kt(true, false, true).generate(&dt), "A20229");
    assert_eq!(kt(true, false, false).generate(&dt), "A2~02/29");
    assert_eq!(kt(false, true, true).generate(&dt), "0905-0300");
    assert_eq!(kt(false, true, false).generate(&dt), "09:05:03");
    assert_eq!(kt(true, true, true).generate(&dt), "A20229-0905-0300");
    assert_eq!(kt(true, true, false).generate(&dt), "A2~02/29 09:05:03");
}

#[test]
fn a_leap_second() {
    let dt = WallTime::new(2016, 12, 31, 23, 59, 59, 1_990_000_000).unwrap();
    let safe = Katetime { show_date: true, show_time: true, url_safe: true };
    let human = Katetime { show_date: true, show_time: true, url_safe: false };
    assert_eq!(safe.generate(&dt), "t41231-2359-60199");
    assert_eq!(human.generate(&dt), "t4~12/31 23:59:60");
    let dt = WallTime::new(2016, 12, 31, 23, 59, 59, 1_000_000_000).unwrap();
    assert_eq!(safe.generate(&dt), "t41231-2359-60100");
}

#[test]
fn years_far_away() {
    let safe = Katetime { show_date: true, show_time: false, url_safe: true };
    for (year, ans) in [
        (2022, "A00101"),
        (2031, "A90101"),
        (2032, "B00101"),
        (2221, "T90101"),
        (2222, "A00101"),
        (2021, "t90101"),
        (1822, "a00101"),
        (1821, "t90101"),
        (0, "r80101"),
        (-1, "r70101"),
        (262142, "M00101"),
        (-262143, "d50101"),
    ] {
        let dt = WallTime::new(year, 1, 1, 0, 0, 0, 0).unwrap();
        assert_eq!(safe.generate(&dt), ans);
    }
    assert_eq!(year_in_cycle(2022), 0);
    assert_eq!(year_in_cycle(2021), 199);
    assert_eq!(year_in_cycle(2222), 0);
    assert_eq!(year_in_cycle(1970), 148);
    assert_eq!(year_in_cycle(1822), 0);
    assert_eq!(year_in_cycle(i32::MAX), (i32::MAX as i64 - 2022).rem_euclid(200) as u32);
    assert_eq!(year_in_cycle(i32::MIN), (i32::MIN as i64 - 2022).rem_euclid(200) as u32);
}

#[test]
fn readings_that_do_not_exist() {
    assert!(WallTime::new(2023, 2, 29, 0, 0, 0, 0).is_none());
    assert!(WallTime::new(2024, 2, 29, 0, 0, 0, 0).is_some());
    assert!(WallTime::new(1900, 2, 29, 0, 0, 0, 0).is_none());
    assert!(WallTime::new(2000, 2, 29, 0, 0, 0, 0).is_some());
    assert!(WallTime::new(-4, 2, 29, 0, 0, 0, 0).is_some());
    assert!(WallTime::new(-100, 2, 29, 0, 0, 0, 0).is_none());
    assert!(WallTime::new(2023, 4, 31, 0, 0, 0, 0).is_none());
    assert!(WallTime::new(2023, 4, 30, 0, 0, 0, 0).is_some());
    assert!(WallTime::new(2023, 12, 31, 0, 0, 0, 0).is_some());
    assert!(WallTime::new(2023, 12, 32, 0, 0, 0, 0).is_none());
    assert!(WallTime::new(2023, 0, 1, 0, 0, 0, 0).is_none());
    assert!(WallTime::new(2023, 13, 1, 0, 0, 0, 0).is_none());
    assert!(WallTime::new(2023, 1, 0, 0, 0, 0, 0).is_none());
    assert!(WallTime::new(262143, 1, 1, 0, 0, 0, 0).is_none());
    assert!(WallTime::new(-262144, 1, 1, 0, 0, 0, 0).is_none());
    assert!(WallTime::new(2023, 1, 1, 24, 0, 0, 0).is_none());
    assert!(WallTime::new(2023, 1, 1, 23, 60, 0, 0).is_none());
    assert!(WallTime::new(2023, 1, 1, 23, 59, 60, 0).is_none());
    assert!(WallTime::new(2023, 1, 1, 23, 59, 59, 1_999_999_999).is_some());
    assert!(WallTime::new(2023, 1, 1, 23, 59, 59, 2_000_000_000).is_none());
    assert!(WallTime::new(2023, 1, 1, 23, 59, 58, 1_000_000_000).is_none());
    assert_eq!(
        WallTime::new(2023, 5, 6, 7, 8, 9, 10),
        Some(WallTime { year: 2023, month: 5, day: 6, hour: 7, minute: 8, second: 9, nano: 10 })
    );
}

#[test]
fn every_reading_that_exists_is_one_of_the_calendar() {
    for year in [-262143, -401, -400, -100, -4, -1, 0, 1, 1900, 2000, 2023, 2024, 262142] {
        for month in 0..=13 {
            for day in 0..=32 {
                assert_eq!(
                    WallTime::new(year, month, day, 0, 0, 0, 0).is_some(),
                    chrono::NaiveDate::from_ymd_opt(year, month, day).is_some()
                );
            }
        }
    }
    for (h, m, s, n) in [
        (0, 0, 0, 0),
        (23, 59, 59, 999_999_999),
        (24, 0, 0, 0),
        (0, 60, 0, 0),
        (0, 0, 60, 0),
        (0, 0, 59, 1_000_000_000),
        (0, 0, 58, 1_000_000_000),
        (0, 0, 59, 2_000_000_000),
    ] {
        assert_eq!(
            WallTime::new(2023, 1, 1, h, m, s, n).is_some(),
            chrono::NaiveTime::from_hms_nano_opt(h, m, s, n).is_some()
        );
    }
}

#[test]
fn the_clock_in_every_form() {
    let digits = |s: &str| s.bytes().all(|b| b.is_ascii_digit());
    let date = Katetime::now_date();
    assert_eq!(date.len(), 6);
    assert!(date.as_bytes()[0].is_ascii_uppercase() && digits(&date[1..]));
    let time = Katetime::now_time();
    assert_eq!(time.len(), 9);
    assert!(digits(&time[..4]) && &time[4..5] == "-" && digits(&time[5..]));
    let both = Katetime::now_datetime();
    assert_eq!(both.len(), 16);
    assert!(&both[6..7] == "-" && &both[11..12] == "-");
    let date = Katetime::now_date_human();
    assert_eq!(date.len(), 8);
    assert!(&date[2..3] == "~" && &date[5..6] == "/");
    let time = Katetime::now_time_human();
    assert_eq!(time.len(), 8);
    assert!(&time[2..3] == ":" && &time[5..6] == ":");
    let both = Katetime::now_datetime_human();
    assert_eq!(both.len(), 17);
    assert!(&both[8..9] == " ");
    let kt = Katetime { show_date: true, show_time: false, url_safe: true };
    assert_eq!(kt.generate_now().len(), 6);
    assert_eq!(kt, Katetime { show_date: true, show_time: false, url_safe: true });
}
