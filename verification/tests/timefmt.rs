use world_weaver::timefmt::{days_to_ymd, format_system_time_utc, is_leap};

#[test]
fn leap_years_follow_the_gregorian_rule() {
    assert!(is_leap(2000));
    assert!(is_leap(2024));
    assert!(!is_leap(1900));
    assert!(!is_leap(2023));
}

#[test]
fn days_to_ymd_hits_known_dates() {
    assert_eq!(days_to_ymd(0), (1970, 1, 1));
    assert_eq!(days_to_ymd(364), (1970, 12, 31));
    assert_eq!(days_to_ymd(365), (1971, 1, 1));
    // 2024 is a leap year; its February has a 29th
    assert_eq!(days_to_ymd(19782), (2024, 2, 29));
    assert_eq!(days_to_ymd(19783), (2024, 3, 1));
}

#[test]
fn timestamps_render_zero_padded() {
    assert_eq!(format_system_time_utc(0), "1970-01-01 00:00:00 UTC");
    assert_eq!(format_system_time_utc(86_400 + 3661), "1970-01-02 01:01:01 UTC");
}

#[test]
fn far_future_timestamps_render_too() {
    // a date well past the hundred-thousand-year mark
    let days: u64 = 40_000_000;
    let secs = days * 86_400 + 2 * 3600 + 3 * 60 + 4;
    let (y, m, d) = days_to_ymd(days as i64);
    let rendered = format_system_time_utc(secs);
    assert!(rendered.ends_with(" 02:03:04 UTC"));
    assert!(rendered.starts_with(&format!("{y}-{m:02}-{d:02}")));
}
