use kontra::namemap::NameMap;
use kontra::types::{BusinessWeekday, CalendarDef, CalendarRegistry};

#[test]
fn from_calendars_rejects_duplicate_ids() {
    let calendars = vec![CalendarDef::standard("us"), CalendarDef::standard("us")];
    let result = CalendarRegistry::from_calendars("us", calendars);
    assert!(result.is_err());
    assert!(
        result
            .expect_err("duplicate id should error")
            .contains("Duplicate calendar id 'us'")
    );
}

#[test]
fn from_calendars_empty_falls_back_to_phase2_default() {
    let registry = CalendarRegistry::from_calendars("", Vec::new())
        .expect("empty calendars should normalize to default");
    assert_eq!(
        registry.default_calendar_id,
        CalendarRegistry::PHASE2_DEFAULT_CALENDAR_ID
    );
    assert!(
        registry.has_calendar(CalendarRegistry::PHASE2_DEFAULT_CALENDAR_ID),
        "default calendar should be present",
    );
}

#[test]
fn normalize_uses_sorted_first_calendar_when_default_is_invalid() {
    let mut calendars = NameMap::new();
    calendars.insert("zeta".to_string(), CalendarDef::standard("zeta"));
    calendars.insert("alpha".to_string(), CalendarDef::standard("alpha"));
    let registry = CalendarRegistry {
        default_calendar_id: "missing".to_string(),
        calendars,
    };

    let normalized = registry.normalize();
    assert_eq!(normalized.default_calendar_id, "alpha");
}

#[test]
fn standard_calendar_defaults_to_weekdays_only() {
    let calendar = CalendarDef::standard("default");
    assert!(calendar.business_weekdays.contains(&BusinessWeekday::Mon));
    assert!(calendar.business_weekdays.contains(&BusinessWeekday::Fri));
    assert!(!calendar.business_weekdays.contains(&BusinessWeekday::Sat));
    assert!(!calendar.business_weekdays.contains(&BusinessWeekday::Sun));
    assert!(calendar.holidays.is_empty());
}


#[test]
fn from_calendars_keeps_a_valid_default() {
    let calendars = vec![CalendarDef::standard("zeta"), CalendarDef::standard("alpha")];
    let registry = CalendarRegistry::from_calendars("zeta", calendars).expect("distinct ids");
    assert_eq!(registry.default_calendar_id, "zeta");
    assert!(registry.has_calendar("alpha"));
    assert!(!registry.has_calendar("beta"));
    assert_eq!(registry.default_calendar().map(|c| c.id.clone()), Some("zeta".to_string()));
}

#[test]
fn normalize_twice_is_normalize_once() {
    let mut calendars = NameMap::new();
    calendars.insert("zeta".to_string(), CalendarDef::standard("zeta"));
    calendars.insert("alpha".to_string(), CalendarDef::standard("alpha"));
    let registry = CalendarRegistry { default_calendar_id: String::new(), calendars };
    let once = registry.normalize();
    assert_eq!(once.default_calendar_id, "alpha");
    let twice = once.normalize();
    assert_eq!(twice.default_calendar_id, "alpha");
    assert!(twice.has_calendar(&twice.default_calendar_id));
}
