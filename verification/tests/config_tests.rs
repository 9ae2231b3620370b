use chrono::{Datelike, NaiveDate};
use kontra::config::{build_calendar_registry, parse_business_weekday, parse_business_weekdays, parse_holidays, RawCalendarEntry};
use kontra::types::{BusinessWeekday, CalendarRegistry};

/// The day number of a calendar date.
fn day(year: i32, month: u32, dom: u32) -> i64 {
    NaiveDate::from_ymd_opt(year, month, dom).expect("valid date").num_days_from_ce() as i64
}

fn texts(v: &serde_json::Value) -> Option<Vec<String>> {
    v.as_array().map(|a| a.iter().map(|x| x.as_str().expect("text").to_string()).collect())
}

fn entry(v: &serde_json::Value) -> RawCalendarEntry {
    RawCalendarEntry {
        id: v.get("id").and_then(|x| x.as_str()).expect("id").to_string(),
        jurisdiction: v.get("jurisdiction").and_then(|x| x.as_str()).map(|s| s.to_string()),
        business_weekdays: v.get("business_weekdays").and_then(texts),
        holidays: v.get("holidays").and_then(texts),
    }
}

/// Decodes a calendar configuration and builds its registry.
fn parse_calendar_registry_json(raw: &str) -> Result<CalendarRegistry, String> {
    let v: serde_json::Value = serde_json::from_str(raw).map_err(|err| format!("JSON parse failed: {}", err))?;
    let default_id = v.get("default_calendar_id").and_then(|d| d.as_str()).map(|s| s.to_string());
    let entries: Vec<RawCalendarEntry> = v
        .get("calendars")
        .and_then(|c| c.as_array())
        .map(|a| a.iter().map(entry).collect())
        .unwrap_or_default();
    build_calendar_registry(default_id, entries)
}

#[test]
fn parse_registry_json_supports_custom_default_and_calendar_fields() {
    let raw = r#"{
        "default_calendar_id": "us_ny",
        "calendars": [
            {
                "id": "us_ny",
                "jurisdiction": "US-NY",
                "business_weekdays": ["Mon", "Tue", "Wed", "Thu", "Fri"],
                "holidays": ["2026-01-01", "2026-12-25"]
            }
        ]
    }"#;

    let registry = parse_calendar_registry_json(raw).expect("config should parse");
    assert_eq!(registry.default_calendar_id, "us_ny");

    let calendar = registry.calendars.get("us_ny").expect("calendar should exist");
    assert_eq!(calendar.jurisdiction.as_deref(), Some("US-NY"));
    assert!(calendar.business_weekdays.contains(&BusinessWeekday::Mon));
    assert!(!calendar.business_weekdays.contains(&BusinessWeekday::Sat));
    assert!(calendar.holidays.contains(&day(2026, 1, 1)));
}

#[test]
fn parse_registry_json_normalizes_invalid_default_id() {
    let raw = r#"{
        "default_calendar_id": "missing",
        "calendars": [
            { "id": "zeta" },
            { "id": "alpha" }
        ]
    }"#;

    let registry = parse_calendar_registry_json(raw).expect("config should parse");
    assert_eq!(registry.default_calendar_id, "alpha");
}

#[test]
fn parse_registry_json_empty_calendars_falls_back_to_phase2_default() {
    let raw = r#"{
        "default_calendar_id": "does-not-matter",
        "calendars": []
    }"#;

    let registry = parse_calendar_registry_json(raw).expect("config should parse");
    assert_eq!(registry.default_calendar_id, CalendarRegistry::PHASE2_DEFAULT_CALENDAR_ID);
    assert!(
        registry.has_calendar(CalendarRegistry::PHASE2_DEFAULT_CALENDAR_ID),
        "phase2 default calendar should be present",
    );
}

#[test]
fn parse_registry_json_rejects_invalid_weekday() {
    let raw = r#"{
        "calendars": [
            {
                "id": "default",
                "business_weekdays": ["Mon", "Freeday"]
            }
        ]
    }"#;

    let err = parse_calendar_registry_json(raw).expect_err("invalid weekday should fail");
    assert!(err.contains("invalid weekday 'Freeday'"));
}

#[test]
fn parse_registry_json_rejects_invalid_holiday_format() {
    let raw = r#"{
        "calendars": [
            {
                "id": "default",
                "holidays": ["01/01/2026"]
            }
        ]
    }"#;

    let err = parse_calendar_registry_json(raw).expect_err("invalid holiday should fail");
    assert!(err.contains("expected YYYY-MM-DD"));
}

#[test]
fn weekday_names_ignore_case_and_surrounding_space() {
    assert_eq!(parse_business_weekday("  MONDAY "), Some(BusinessWeekday::Mon));
    assert_eq!(parse_business_weekday("tues"), Some(BusinessWeekday::Tue));
    assert_eq!(parse_business_weekday("Thurs"), Some(BusinessWeekday::Thu));
    assert_eq!(parse_business_weekday("sun"), Some(BusinessWeekday::Sun));
    assert_eq!(parse_business_weekday("funday"), None);
    assert_eq!(parse_business_weekday(""), None);
}

#[test]
fn weekday_list_errors_name_the_calendar() {
    let err = parse_business_weekdays("cal", vec!["Mon".to_string(), "Nope".to_string(), "Bad".to_string()])
        .expect_err("first invalid name is reported");
    assert_eq!(err, "calendar 'cal' has invalid weekday 'Nope'");
    let err = parse_business_weekdays("cal", Vec::new()).expect_err("no weekday");
    assert_eq!(err, "calendar 'cal' must declare at least one business weekday");
    let ok = parse_business_weekdays("cal", vec!["sat".to_string(), "Sun".to_string()]).expect("valid");
    assert_eq!(ok, vec![BusinessWeekday::Sat, BusinessWeekday::Sun]);
}

#[test]
fn holiday_list_trims_and_reports_the_raw_text() {
    let ok = parse_holidays("cal", vec![" 2026-12-25 ".to_string()]).expect("valid");
    assert_eq!(ok, vec![day(2026, 12, 25)]);
    let err = parse_holidays("cal", vec!["2026-02-30".to_string()]).expect_err("no such day");
    assert_eq!(err, "calendar 'cal' has invalid holiday '2026-02-30'; expected YYYY-MM-DD");
}

#[test]
fn empty_calendar_id_is_refused() {
    let entries = vec![RawCalendarEntry {
        id: "  ".to_string(),
        jurisdiction: None,
        business_weekdays: None,
        holidays: None,
    }];
    let err = build_calendar_registry(None, entries).expect_err("blank id");
    assert_eq!(err, "calendar id cannot be empty");
}

#[test]
fn duplicate_calendar_ids_in_a_configuration_are_refused() {
    let raw = r#"{ "calendars": [ { "id": "a" }, { "id": "a" } ] }"#;
    let err = parse_calendar_registry_json(raw).expect_err("duplicate");
    assert_eq!(err, "Duplicate calendar id 'a'");
}

#[test]
fn weekday_and_holiday_lists_are_sets() {
    let ok = parse_business_weekdays(
        "cal",
        vec!["Fri".to_string(), "mon".to_string(), "FRIDAY".to_string(), "Wed".to_string()],
    )
    .expect("valid");
    assert_eq!(ok, vec![BusinessWeekday::Mon, BusinessWeekday::Wed, BusinessWeekday::Fri]);
    let ok = parse_holidays(
        "cal",
        vec!["2026-12-25".to_string(), "2026-01-01".to_string(), " 2026-12-25".to_string()],
    )
    .expect("valid");
    assert_eq!(ok, vec![day(2026, 1, 1), day(2026, 12, 25)]);
}
