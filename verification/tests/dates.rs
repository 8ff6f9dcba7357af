use chrono::Datelike;
use chrono::NaiveDate;
use kelpie_tipping::date::Date;
use kelpie_tipping::date::EPOCH_DAY_NUMBER;
use kelpie_tipping::date::MAX_DAY_NUMBER;
use kelpie_tipping::date::MIN_DAY_NUMBER;

#[test]
fn calendar_limits_are_those_of_chrono() {
    assert_eq!(NaiveDate::MIN.num_days_from_ce(), MIN_DAY_NUMBER);
    assert_eq!(NaiveDate::MAX.num_days_from_ce(), MAX_DAY_NUMBER);
    assert!(NaiveDate::from_num_days_from_ce_opt(MIN_DAY_NUMBER - 1).is_none());
    assert!(NaiveDate::from_num_days_from_ce_opt(MAX_DAY_NUMBER + 1).is_none());
    assert!(NaiveDate::from_num_days_from_ce_opt(MIN_DAY_NUMBER).is_some());
    assert!(NaiveDate::from_num_days_from_ce_opt(MAX_DAY_NUMBER).is_some());
}

#[test]
fn date_from_ymd_and_back_to_text() {
    let d = Date::from_ymd(2025, 3, 1).unwrap();
    assert_eq!(d.iso_text(), "2025-03-01");
    assert_eq!(d.day_number(), NaiveDate::from_ymd_opt(2025, 3, 1).unwrap().num_days_from_ce());
    assert_eq!(d.day_number(), 739_311);
}

#[test]
fn date_text_differs_from_day_number() {
    let d = Date::from_day_number(1).unwrap();
    assert_eq!(d.iso_text(), "0001-01-01");
    let e = Date::from_day_number(730_000).unwrap();
    assert_eq!(e.iso_text(), "1999-09-03");
}

#[test]
fn date_rejects_what_is_no_date() {
    assert!(Date::from_ymd(2023, 4, 31).is_none());
    assert!(Date::from_ymd(2015, 0, 14).is_none());
    assert!(Date::from_ymd(2015, 2, 29).is_none());
    assert!(Date::from_ymd(2016, 2, 29).is_some());
    assert!(Date::from_ymd(400_000, 1, 1).is_none());
    assert!(Date::from_ymd(-400_000, 1, 1).is_none());
}

#[test]
fn date_from_day_number_keeps_to_the_calendar() {
    assert!(Date::from_day_number(MIN_DAY_NUMBER).is_some());
    assert!(Date::from_day_number(MAX_DAY_NUMBER).is_some());
    assert!(Date::from_day_number(MIN_DAY_NUMBER - 1).is_none());
    assert!(Date::from_day_number(MAX_DAY_NUMBER + 1).is_none());
    assert_eq!(Date::from_day_number(MIN_DAY_NUMBER).unwrap().iso_text(), "-262143-01-01");
    assert_eq!(Date::from_day_number(MAX_DAY_NUMBER).unwrap().iso_text(), "+262142-12-31");
}

#[test]
fn date_plus_days_moves_within_the_calendar() {
    let d = Date::from_ymd(2025, 2, 26).unwrap();
    assert_eq!(d.plus_days(7).unwrap(), Date::from_ymd(2025, 3, 5).unwrap());
    assert_eq!(d.plus_days(-26).unwrap(), Date::from_ymd(2025, 1, 31).unwrap());
    assert_eq!(d.plus_days(0).unwrap(), d);
    let last = Date::from_day_number(MAX_DAY_NUMBER).unwrap();
    assert!(last.plus_days(1).is_none());
    assert!(last.plus_days(i32::MAX).is_none());
    assert_eq!(last.plus_days(-1).unwrap().day_number(), MAX_DAY_NUMBER - 1);
    let first = Date::from_day_number(MIN_DAY_NUMBER).unwrap();
    assert!(first.plus_days(-1).is_none());
    assert!(first.plus_days(i32::MIN).is_none());
}

#[test]
fn date_default_is_the_epoch() {
    let d = Date::default();
    assert_eq!(d.day_number(), EPOCH_DAY_NUMBER);
    assert_eq!(d, Date::from_ymd(1970, 1, 1).unwrap());
    assert_eq!(d.iso_text(), NaiveDate::default().format("%Y-%m-%d").to_string());
}

#[test]
fn date_order_is_calendar_order() {
    let a = Date::from_ymd(2024, 12, 31).unwrap();
    let b = Date::from_ymd(2025, 1, 1).unwrap();
    assert!(a < b);
    assert_eq!(a.plus_days(1).unwrap(), b);
    assert_eq!(b.day_number() - a.day_number(), 1);
}
