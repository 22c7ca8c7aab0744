use rinha::datetime::{
    day_of_week, days_since_epoch, month_is_valid, parse_datetime, parse_u32, parse_unix_secs,
    seconds_between,
};

#[test]
fn digits_make_a_number() {
    assert_eq!(parse_u32(b"2026"), 2026);
    assert_eq!(parse_u32(b"07"), 7);
    assert_eq!(parse_u32(b""), 0);
    assert_eq!(parse_u32(b"1a2-3"), 123);
    assert_eq!(parse_u32(b"999999999"), 999_999_999);
}

#[test]
fn long_numbers_wrap() {
    assert_eq!(parse_u32(b"4294967295"), u32::MAX);
    assert_eq!(parse_u32(b"4294967296"), 0);
    assert_eq!(parse_u32(b"99999999999"), (99_999_999_999u64 % (1u64 << 32)) as u32);
}

#[test]
fn days_from_the_epoch() {
    assert_eq!(days_since_epoch(1970, 1, 1), 0);
    assert_eq!(days_since_epoch(1970, 1, 2), 1);
    assert_eq!(days_since_epoch(1970, 3, 1), 59);
    assert_eq!(days_since_epoch(2000, 2, 29), 11016);
    assert_eq!(days_since_epoch(2000, 3, 1), 11017);
    assert_eq!(days_since_epoch(2024, 12, 31), 20088);
    assert_eq!(days_since_epoch(2025, 1, 1), 20089);
}

#[test]
fn days_before_the_epoch_wrap() {
    assert_eq!(days_since_epoch(1969, 12, 31), u64::MAX);
    assert_eq!(days_since_epoch(1900, 2, 28).wrapping_add(1), days_since_epoch(1900, 3, 1));
    assert_eq!(days_since_epoch(1970, 1, 0), u64::MAX);
}

#[test]
fn weekdays() {
    assert_eq!(day_of_week(1970, 1, 1), 3);
    assert_eq!(day_of_week(2026, 3, 11), 2);
    assert_eq!(day_of_week(2024, 2, 29), 3);
    assert_eq!(day_of_week(2023, 1, 1), 6);
    assert_eq!(day_of_week(2023, 12, 25), 0);
}

#[test]
fn weekdays_follow_days() {
    for (y, m, d) in [(1970, 1, 1), (1999, 12, 31), (2000, 2, 29), (2026, 7, 4), (9999, 12, 31)] {
        let days = days_since_epoch(y, m, d);
        assert_eq!(day_of_week(y as u32, m as u32, d as u32) as u64, (days + 3) % 7);
    }
}

#[test]
fn weekday_in_year_zero_wraps() {
    let y = u32::MAX;
    let sum = y
        .wrapping_add(y / 4)
        .wrapping_sub(y / 100)
        .wrapping_add(y / 400)
        .wrapping_add(3)
        .wrapping_add(1);
    assert_eq!(day_of_week(0, 2, 1), (sum % 7 + 6) % 7);
}

#[test]
fn seconds_of_a_timestamp() {
    assert_eq!(parse_unix_secs("1970-01-01T00:00:00Z"), 0);
    assert_eq!(parse_unix_secs("1970-01-02T01:02:03Z"), 86400 + 3723);
    assert_eq!(parse_unix_secs("2025-01-01T00:00:00Z"), 20089 * 86400);
    assert_eq!(parse_unix_secs("1969-12-31T23:59:59Z"), u64::MAX);
}

#[test]
fn short_timestamps_are_zero() {
    assert_eq!(parse_unix_secs("2025-01-01T00:00:0"), 0);
    assert_eq!(parse_unix_secs(""), 0);
    assert_eq!(parse_datetime("2025-01-01"), (0, 0));
    assert!(month_is_valid("2025-99-01"));
}

#[test]
fn hour_and_weekday_of_a_timestamp() {
    assert_eq!(parse_datetime("2026-03-11T18:45:53Z"), (18, 2));
    assert_eq!(parse_datetime("2026-03-11T18:45:53"), (18, 2));
}

#[test]
fn months_of_the_calendar() {
    assert!(month_is_valid("2026-01-11T18:45:53Z"));
    assert!(month_is_valid("2026-12-11T18:45:53Z"));
    assert!(!month_is_valid("2026-00-11T18:45:53Z"));
    assert!(!month_is_valid("2026-13-11T18:45:53Z"));
}

#[test]
fn seconds_between_timestamps() {
    let a = "2026-03-11T18:45:53Z";
    let b = "2026-03-12T18:46:00Z";
    assert_eq!(seconds_between(a, b), 86400 + 7);
    assert_eq!(seconds_between(b, a), 86400 + 7);
    assert_eq!(seconds_between(a, a), 0);
    assert_eq!(seconds_between("1969-12-31T23:59:59Z", "1970-01-01T00:00:01Z"), 2);
    assert_eq!(seconds_between("", "1970-01-01T00:01:00Z"), 60);
}

#[test]
fn days_follow_the_calendar() {
    let lengths = [31, 28, 31, 30, 31, 30, 31, 31, 30, 31, 30, 31];
    let mut expected = 0u64;
    for year in 1970..2405u64 {
        let leap = year % 4 == 0 && (year % 100 != 0 || year % 400 == 0);
        for month in 1..13u64 {
            let extra = if leap && month == 2 { 1 } else { 0 };
            for day in 1..lengths[month as usize - 1] + extra + 1 {
                assert_eq!(days_since_epoch(year, month, day), expected);
                assert_eq!(
                    day_of_week(year as u32, month as u32, day as u32) as u64,
                    (expected + 3) % 7
                );
                expected += 1;
            }
        }
    }
}

#[test]
fn later_timestamps_have_more_seconds() {
    let ascending = [
        "1970-01-01T00:00:00Z",
        "1970-01-01T00:00:59Z",
        "1970-01-01T00:59:00Z",
        "1970-01-01T23:00:00Z",
        "1999-12-31T23:59:59Z",
        "2000-01-01T00:00:00Z",
        "2024-02-28T23:59:59Z",
        "2024-02-29T00:00:00Z",
        "2024-03-01T00:00:00Z",
        "9999-12-31T23:59:59Z",
    ];
    for pair in ascending.windows(2) {
        assert!(parse_unix_secs(pair[0]) < parse_unix_secs(pair[1]));
    }
    assert!(parse_unix_secs("1969-12-31T23:59:58Z") < parse_unix_secs("1969-12-31T23:59:59Z"));
    assert!(parse_unix_secs("1969-12-31T23:59:59Z") > parse_unix_secs("1970-01-01T00:00:00Z"));
}
