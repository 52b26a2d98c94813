use task_tracker_lib::{Date, DateTime, Time};

fn dt(year: u16, month: u8, day: u8, hour: u8, minute: u8, second: u8) -> DateTime {
    DateTime::new(Date::new(year, month, day), Time::new(hour, minute, second))
}

#[test]
fn leap_years_follow_the_gregorian_rule() {
    assert!(DateTime::is_leap_year(2000));
    assert!(!DateTime::is_leap_year(1900));
    assert!(DateTime::is_leap_year(2024));
    assert!(!DateTime::is_leap_year(2023));
}

#[test]
fn days_to_ymd_at_known_days() {
    assert_eq!(DateTime::days_to_ymd(0), (1970, 1, 1));
    assert_eq!(DateTime::days_to_ymd(31), (1970, 2, 1));
    assert_eq!(DateTime::days_to_ymd(365), (1971, 1, 1));
    assert_eq!(DateTime::days_to_ymd(11016), (2000, 2, 29));
    assert_eq!(DateTime::days_to_ymd(19722), (2023, 12, 31));
}

#[test]
fn epoch_is_new_year_1970() {
    assert_eq!(DateTime::from_unix_seconds(0), dt(1970, 1, 1, 0, 0, 0));
}

#[test]
fn known_instants() {
    assert_eq!(DateTime::from_unix_seconds(1_700_000_000), dt(2023, 11, 14, 22, 13, 20));
    assert_eq!(DateTime::from_unix_seconds(951_782_400), dt(2000, 2, 29, 0, 0, 0));
    assert_eq!(DateTime::from_unix_seconds(1_709_251_199), dt(2024, 2, 29, 23, 59, 59));
    assert_eq!(DateTime::from_unix_seconds(4_102_444_800), dt(2100, 1, 1, 0, 0, 0));
}

#[test]
fn seconds_round_trip_over_a_century() {
    let mut s: u64 = 0;
    while s < 4_200_000_000 {
        let t = DateTime::from_unix_seconds(s);
        assert_eq!(t.to_unix_seconds(), s);
        s += 7_654_321;
    }
}

#[test]
fn to_unix_seconds_of_a_date() {
    assert_eq!(dt(2024, 3, 1, 0, 0, 0).to_unix_seconds(), 1_709_251_200);
    assert_eq!(dt(1970, 1, 2, 1, 1, 1).to_unix_seconds(), 86400 + 3661);
}

#[test]
fn now_is_a_valid_instant() {
    let t = DateTime::now();
    assert!(t.date.year >= 2020);
    assert!(t.date.month >= 1 && t.date.month <= 12);
    assert_eq!(DateTime::from_unix_seconds(t.to_unix_seconds()), t);
}

#[test]
fn last_representable_instant_round_trips() {
    let s = task_tracker_lib::date_time::MAX_UNIX_SECONDS - 1;
    let t = DateTime::from_unix_seconds(s);
    assert_eq!(t.to_unix_seconds(), s);
    assert_eq!(t.time, Time::new(23, 59, 59));
    assert_eq!(DateTime::days_to_ymd(task_tracker_lib::date_time::MAX_DAYS - 1), (t.date.year, t.date.month, t.date.day));
}
