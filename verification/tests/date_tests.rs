use void_kernel::date::{is_leap_year, utime_supported, Date, Month, Period, MAX_UTIME, MIN_UTIME};

#[test]
fn epoch_is_first_of_january_1970() {
    let d = Date::from_utime(0);
    assert_eq!(d.year(), 1970);
    assert_eq!(d.month(), Month::January);
    assert_eq!(d.day_of_month(), 1);
    assert_eq!(d.day_of_year(), 1);
    assert_eq!(d.hour(), 0);
    assert_eq!(d.minute(), 0);
    assert_eq!(d.second(), 0);
    assert_eq!(d.hour_12(), 12);
    assert_eq!(d.period(), Period::AM);
}

#[test]
fn leap_years() {
    assert!(is_leap_year(2000));
    assert!(is_leap_year(2024));
    assert!(!is_leap_year(1900));
    assert!(!is_leap_year(2023));
}

#[test]
fn billennium_second() {
    // 2001-09-09 01:46:40 UTC
    let d = Date::from_utime(1_000_000_000);
    assert_eq!(d.year(), 2001);
    assert_eq!(d.month(), Month::September);
    assert_eq!(d.day_of_month(), 9);
    assert_eq!(d.day_of_year(), 252);
    assert_eq!(d.hour(), 1);
    assert_eq!(d.minute(), 46);
    assert_eq!(d.second(), 40);
    assert_eq!(d.hour_12(), 1);
    assert_eq!(d.period(), Period::AM);
}

#[test]
fn leap_day_2024_afternoon() {
    // 2024-02-29 13:00:00 UTC
    let d = Date::from_utime(1_709_211_600);
    assert_eq!(d.year(), 2024);
    assert_eq!(d.month(), Month::February);
    assert_eq!(d.day_of_month(), 29);
    assert_eq!(d.day_of_year(), 60);
    assert_eq!(d.hour(), 13);
    assert_eq!(d.hour_12(), 1);
    assert_eq!(d.period(), Period::PM);
}

#[test]
fn last_second_of_1999() {
    let d = Date::from_utime(946_684_799);
    assert_eq!(d.year(), 1999);
    assert_eq!(d.month(), Month::December);
    assert_eq!(d.day_of_month(), 31);
    assert_eq!(d.day_of_year(), 365);
    assert_eq!(d.hour(), 23);
    assert_eq!(d.minute(), 59);
    assert_eq!(d.second(), 59);
    assert_eq!(d.hour_12(), 11);
    assert_eq!(d.period(), Period::PM);
}

#[test]
fn noon_is_twelve_pm() {
    let d = Date::from_utime(12 * 3600);
    assert_eq!(d.hour(), 12);
    assert_eq!(d.hour_12(), 12);
    assert_eq!(d.period(), Period::PM);
}

#[test]
fn one_second_before_epoch() {
    let d = Date::from_utime(-1);
    assert_eq!(d.year(), 1969);
    assert_eq!(d.month(), Month::December);
    assert_eq!(d.day_of_month(), 31);
    assert_eq!(d.day_of_year(), 365);
    assert_eq!(d.hour(), 23);
    assert_eq!(d.minute(), 59);
    assert_eq!(d.second(), 59);
}

#[test]
fn start_of_the_year_before_epoch() {
    // 1969-01-01 00:00:00 UTC, the first time stamp converted.
    let d = Date::from_utime(-365 * 86400);
    assert_eq!(d.year(), 1969);
    assert_eq!(d.month(), Month::January);
    assert_eq!(d.day_of_month(), 1);
    assert_eq!(d.day_of_year(), 1);
    assert_eq!((d.hour(), d.minute(), d.second()), (0, 0, 0));
}

#[test]
fn month_try_from() {
    assert_eq!(Month::try_from(0), Ok(Month::January));
    assert_eq!(Month::try_from(11), Ok(Month::December));
    assert_eq!(Month::try_from(12), Err(()));
    assert_eq!(Month::try_from(255), Err(()));
}

#[test]
fn month_and_period_names() {
    assert_eq!(Month::January.name(), "January");
    assert_eq!(Month::September.name(), "September");
    assert_eq!(Month::December.name(), "December");
    assert_eq!(Period::AM.name(), "AM");
    assert_eq!(Period::PM.name(), "PM");
}

#[test]
fn months_are_ordered() {
    assert!(Month::January < Month::February);
    assert!(Month::November < Month::December);
}

#[test]
fn neighbouring_seconds_are_different_dates() {
    let a = Date::from_utime(86_399);
    let b = Date::from_utime(86_400);
    assert_eq!((a.day_of_year(), a.hour(), a.minute(), a.second()), (1, 23, 59, 59));
    assert_eq!((b.day_of_year(), b.hour(), b.minute(), b.second()), (2, 0, 0, 0));
    assert_eq!(b.day_of_month(), 2);
}

#[test]
fn supported_time_stamps_run_from_1969_to_the_last_i32_year() {
    assert_eq!(MIN_UTIME, -365 * 86400);
    assert!(utime_supported(-1));
    assert!(!utime_supported(-365 * 86400 - 1));
    assert!(utime_supported(0));
    assert!(utime_supported(MIN_UTIME));
    assert!(!utime_supported(MIN_UTIME - 1));
    assert!(utime_supported(MAX_UTIME - 1));
    assert!(!utime_supported(MAX_UTIME));
    assert!(!utime_supported(i64::MAX));
    assert!(!utime_supported(i64::MIN));
}

#[test]
fn the_last_year_of_i32_converts_to_its_end() {
    let last = Date::from_utime(MAX_UTIME - 1);
    assert_eq!(last.year(), i32::MAX);
    assert_eq!(last.month(), Month::December);
    assert_eq!(last.day_of_month(), 31);
    assert_eq!((last.hour(), last.minute(), last.second()), (23, 59, 59));
    // i32::MAX is not a leap year.
    assert_eq!(last.day_of_year(), 365);
    let first = Date::from_utime(MAX_UTIME - 365 * 86400);
    assert_eq!((first.year(), first.month(), first.day_of_month()), (i32::MAX, Month::January, 1));
    assert_eq!((first.hour(), first.minute(), first.second()), (0, 0, 0));
}
