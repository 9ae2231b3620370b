use chrono::{Datelike, NaiveDate};
use kontra::calendar::{add_business_days, is_business_day, next_business_day};
use kontra::types::{BusinessWeekday, CalendarDef};

/// The day number of a calendar date.
fn day(year: i32, month: u32, dom: u32) -> i64 {
    NaiveDate::from_ymd_opt(year, month, dom).expect("valid date").num_days_from_ce() as i64
}

#[test]
fn is_business_day_respects_weekend_and_holiday_rules() {
    let mut calendar = CalendarDef::standard("default");
    let holiday = day(2026, 3, 9);
    calendar.holidays.push(holiday);

    assert!(is_business_day(day(2026, 3, 10), &calendar), "Tuesday should be business day");
    assert!(!is_business_day(day(2026, 3, 8), &calendar), "Sunday should not be business day");
    assert!(!is_business_day(holiday, &calendar), "holiday should not be business day");
}

#[test]
fn add_business_days_skips_weekends_and_crosses_month_and_year() {
    let calendar = CalendarDef::standard("default");
    let start = day(2026, 12, 31); // Thu
    let due = add_business_days(start, 2, &calendar);
    assert_eq!(
        due,
        day(2027, 1, 4),
        "2 business days from Thu 2026-12-31 should land on Mon 2027-01-04",
    );
}

#[test]
fn add_business_days_skips_configured_holidays() {
    let calendar = CalendarDef {
        id: "us_ny".to_string(),
        jurisdiction: Some("US-NY".to_string()),
        business_weekdays: BusinessWeekday::standard_business_days(),
        holidays: vec![day(2026, 3, 9)], // Monday
    };

    let start = day(2026, 3, 6); // Fri
    let due = add_business_days(start, 1, &calendar);
    assert_eq!(due, day(2026, 3, 10), "holiday Monday should push +1 business day to Tuesday");
}

#[test]
fn next_business_day_moves_to_next_valid_day() {
    let calendar = CalendarDef::standard("default");
    let next = next_business_day(day(2026, 3, 6), &calendar); // Fri
    assert_eq!(next, day(2026, 3, 9));
}

#[test]
fn adding_business_days_in_two_steps_is_adding_them_at_once() {
    let mut calendar = CalendarDef::standard("default");
    calendar.holidays.push(day(2026, 3, 11));
    let start = day(2026, 3, 5);
    let step = add_business_days(add_business_days(start, 3, &calendar), 4, &calendar);
    assert_eq!(step, add_business_days(start, 7, &calendar));
    assert_eq!(add_business_days(start, 0, &calendar), start);
}

#[test]
fn weekend_only_calendar_counts_weekends() {
    let calendar = CalendarDef {
        id: "weekend".to_string(),
        jurisdiction: None,
        business_weekdays: vec![BusinessWeekday::Sat, BusinessWeekday::Sun],
        holidays: Vec::new(),
    };
    // Friday 2026-03-06: the next business day is Saturday.
    assert_eq!(next_business_day(day(2026, 3, 6), &calendar), day(2026, 3, 7));
    assert_eq!(add_business_days(day(2026, 3, 6), 3, &calendar), day(2026, 3, 14));
}

#[test]
fn business_days_between_start_and_result_are_counted_exactly() {
    let calendar = CalendarDef::standard("default");
    let start = day(2026, 3, 6);
    let due = add_business_days(start, 3, &calendar);
    let mut count = 0;
    let mut d = start + 1;
    while d <= due {
        if is_business_day(d, &calendar) {
            count += 1;
        }
        d += 1;
    }
    assert_eq!(count, 3);
    assert!(is_business_day(due, &calendar));
}
