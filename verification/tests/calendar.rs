//! Timestamps.

use velox_browser::benchmark::format_unix_time_utc;
use velox_browser::calendar::civil_from_days;

#[test]
fn format_unix_time_utc_of_epoch_zero() {
    assert_eq!(format_unix_time_utc(0), "1970-01-01T00:00:00Z");
}

#[test]
fn format_unix_time_utc_of_a_known_new_year() {
    assert_eq!(format_unix_time_utc(1_704_067_200), "2024-01-01T00:00:00Z");
}

#[test]
fn format_unix_time_utc_of_a_recent_timestamp() {
    assert_eq!(format_unix_time_utc(1_756_684_800), "2025-09-01T00:00:00Z");
}

#[test]
fn format_unix_time_utc_end_of_first_day() {
    assert_eq!(format_unix_time_utc(86_399), "1970-01-01T23:59:59Z");
}

#[test]
fn format_unix_time_utc_one_second_after_epoch() {
    assert_eq!(format_unix_time_utc(1), "1970-01-01T00:00:01Z");
}

#[test]
fn leap_days_are_counted() {
    assert_eq!(format_unix_time_utc(951_782_400), "2000-02-29T00:00:00Z");
    assert_eq!(format_unix_time_utc(951_868_800), "2000-03-01T00:00:00Z");
    assert_eq!(format_unix_time_utc(4_107_542_400), "2100-03-01T00:00:00Z");
}

#[test]
fn every_day_has_a_date() {
    assert_eq!(civil_from_days(0), (1970, 1, 1));
    assert_eq!(civil_from_days(-1), (1969, 12, 31));
    assert_eq!(civil_from_days(11_016), (2000, 2, 29));
    assert_eq!(civil_from_days(-719_468), (0, 3, 1));
    assert_eq!(civil_from_days(-719_469), (0, 2, 29));
    assert_eq!(civil_from_days(i64::MAX), (25_252_734_927_768_524, 7, 27));
    assert_eq!(civil_from_days(i64::MIN), (-25_252_734_927_764_585, 6, 7));
}
