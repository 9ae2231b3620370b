use chrono::{Datelike, NaiveDate};
use kontra::compiler::Compiler;
use kontra::engine::{ContractRuntime, ObligationSnapshot};
use kontra::types::{CalendarDef, CalendarRegistry, ContractDef, EventOccurrence, ObligationState};
use kontra::vm::VM;

/// The day number of a calendar date.
fn day(year: i32, month: u32, dom: u32) -> i64 {
    NaiveDate::from_ymd_opt(year, month, dom).expect("valid date").num_days_from_ce() as i64
}



fn runtime_from_source(source: &str) -> ContractRuntime {
    let chunk = Compiler::compile(source).expect("compile should succeed");
    let contract = VM::interpret(chunk).expect("vm interpret should succeed");
    ContractRuntime::new(contract)
}

fn contract_from_source(source: &str) -> ContractDef {
    let chunk = Compiler::compile(source).expect("compile should succeed");
    VM::interpret(chunk).expect("vm interpret should succeed")
}

fn snapshot_due_date(runtime: &ContractRuntime, name: &str) -> Option<i64> {
    runtime
        .query_state()
        .into_iter()
        .find(|snapshot| snapshot.name == name)
        .and_then(|snapshot| snapshot.due_date)
}

#[test]
fn runtime_uses_default_calendar_for_term_without_override() {
    let source = r#"contract Foo {
        term DeliveryWindow = 5 business_days from Effective
        obligation DeliverSoftware {
            party: seller
            action: "Deliver software"
            due: DeliveryWindow
        }
    }"#;

    let runtime = runtime_from_source(source);
    assert_eq!(
        runtime.selected_calendar_id_for_term("DeliveryWindow"),
        Some(CalendarRegistry::PHASE2_DEFAULT_CALENDAR_ID),
    );
}

#[test]
fn runtime_uses_term_calendar_override_when_present() {
    let source = r#"contract Foo {
        term DeliveryWindow = 5 business_days from Effective
        obligation DeliverSoftware {
            party: seller
            action: "Deliver software"
            due: DeliveryWindow
        }
    }"#;

    let mut contract = contract_from_source(source);
    contract
        .terms
        .get_mut("DeliveryWindow")
        .expect("term should exist")
        .calendar_ref = Some("us_ny".to_string());

    let registry = CalendarRegistry::from_calendars(
        "default",
        vec![CalendarDef::standard("default"), CalendarDef::standard("us_ny")],
    )
    .expect("registry should be valid");
    let runtime = ContractRuntime::with_calendar_registry(contract, registry)
        .expect("runtime should accept known calendar override");

    assert_eq!(
        runtime.selected_calendar_id_for_term("DeliveryWindow"),
        Some("us_ny"),
    );
}

#[test]
fn runtime_rejects_unknown_term_calendar_override() {
    let source = r#"contract Foo {
        term DeliveryWindow = 5 business_days from Effective
        obligation DeliverSoftware {
            party: seller
            action: "Deliver software"
            due: DeliveryWindow
        }
    }"#;

    let mut contract = contract_from_source(source);
    contract
        .terms
        .get_mut("DeliveryWindow")
        .expect("term should exist")
        .calendar_ref = Some("unknown_calendar".to_string());

    let err =
        ContractRuntime::with_calendar_registry(contract, CalendarRegistry::phase2_default())
            .expect_err("unknown term calendar should be rejected");
    assert!(
        err.contains("Unknown calendar 'unknown_calendar' referenced by term 'DeliveryWindow'")
    );
}

#[test]
fn business_day_term_skips_weekends_in_due_resolution() {
    let source = r#"contract Foo {
        term DeliveryWindow = 1 business_days from Effective
        obligation DeliverSoftware {
            party: seller
            action: "Deliver software"
            due: DeliveryWindow
            condition: after(Effective)
        }
    }"#;

    let mut runtime = runtime_from_source(source);
    runtime.trigger_event(
        "Effective",
        day(2026, 3, 6), // Friday
    );
    runtime.evaluate_at(day(2026, 3, 6));

    assert_eq!(
        snapshot_due_date(&runtime, "DeliverSoftware"),
        Some(day(2026, 3, 9)), // Monday
    );
}

#[test]
fn business_day_term_skips_configured_holidays_in_due_resolution() {
    let source = r#"contract Foo {
        term DeliveryWindow = 1 business_days from Effective
        obligation DeliverSoftware {
            party: seller
            action: "Deliver software"
            due: DeliveryWindow
            condition: after(Effective)
        }
    }"#;

    let mut contract = contract_from_source(source);
    contract
        .terms
        .get_mut("DeliveryWindow")
        .expect("term should exist")
        .calendar_ref = Some("us_ny".to_string());

    let mut holiday_calendar = CalendarDef::standard("us_ny");
    holiday_calendar.jurisdiction = Some("US-NY".to_string());
    holiday_calendar
        .holidays
        .push(day(2026, 3, 9)); // Monday holiday

    let registry =
        CalendarRegistry::from_calendars("default", vec![CalendarDef::standard("default"), holiday_calendar])
            .expect("registry should be valid");
    let mut runtime = ContractRuntime::with_calendar_registry(contract, registry)
        .expect("runtime should accept configured calendar");

    runtime.trigger_event(
        "Effective",
        day(2026, 3, 6), // Friday
    );
    runtime.evaluate_at(day(2026, 3, 6));

    assert_eq!(
        snapshot_due_date(&runtime, "DeliverSoftware"),
        Some(day(2026, 3, 10)), // Tuesday
    );
}

#[test]
fn business_and_calendar_day_due_dates_diverge() {
    let source = r#"contract Foo {
        term BizWindow = 1 business_days from Effective
        term CalWindow = 1 calendar_days from Effective

        obligation DeliverBusiness {
            party: seller
            action: "Deliver with business-day term"
            due: BizWindow
            condition: after(Effective)
        }

        obligation DeliverCalendar {
            party: seller
            action: "Deliver with calendar-day term"
            due: CalWindow
            condition: after(Effective)
        }
    }"#;

    let mut runtime = runtime_from_source(source);
    runtime.trigger_event(
        "Effective",
        day(2026, 3, 6), // Friday
    );
    runtime.evaluate_at(day(2026, 3, 6));

    assert_eq!(
        snapshot_due_date(&runtime, "DeliverBusiness"),
        Some(day(2026, 3, 9)), // Monday
    );
    assert_eq!(
        snapshot_due_date(&runtime, "DeliverCalendar"),
        Some(day(2026, 3, 7)), // Saturday
    );
}

#[test]
fn condition_precedence_treats_and_tighter_than_or() {
    let source = r#"contract Foo {
        obligation DeliverSoftware {
            party: seller
            action: "Deliver software"
        }

        obligation PayLicenseFee {
            party: buyer
            action: "Pay fee"
            condition: satisfied(DeliverSoftware) or occurred(AcceptanceNotice) and occurred(ApprovalNotice)
        }
    }"#;

    let mut runtime = runtime_from_source(source);
    runtime.satisfy("DeliverSoftware");
    runtime.evaluate_at(day(2026, 3, 5));

    assert_eq!(
        runtime.states.get("PayLicenseFee"),
        Some(&ObligationState::Active),
        "expected active because expression should parse as A or (B and C)",
    );
}

#[test]
fn condition_grouping_changes_default_precedence() {
    let source = r#"contract Foo {
        obligation DeliverSoftware {
            party: seller
            action: "Deliver software"
        }

        obligation PayLicenseFee {
            party: buyer
            action: "Pay fee"
            condition: (satisfied(DeliverSoftware) or occurred(AcceptanceNotice)) and occurred(ApprovalNotice)
        }
    }"#;

    let mut runtime = runtime_from_source(source);
    runtime.satisfy("DeliverSoftware");
    runtime.evaluate_at(day(2026, 3, 5));

    assert_eq!(
        runtime.states.get("PayLicenseFee"),
        Some(&ObligationState::Pending),
        "grouping should require occurred(ApprovalNotice)",
    );
}

#[test]
fn condition_before_uses_event_date_threshold() {
    let source = r#"contract Foo {
        obligation EarlyAction {
            party: seller
            action: "Act before cutoff"
            condition: before(Cutoff)
        }
    }"#;

    let mut runtime = runtime_from_source(source);
    runtime.events.push(EventOccurrence {
        name: "Cutoff".to_string(),
        date: day(2026, 3, 10),
    });
    runtime.evaluate_at(day(2026, 3, 5));

    assert_eq!(
        runtime.states.get("EarlyAction"),
        Some(&ObligationState::Active),
        "before(Cutoff) should be true while eval date is earlier than cutoff date",
    );
}

#[test]
fn pending_before_condition_is_met() {
    let source = r#"contract Foo {
        event Effective = date("2026-03-01")
        term PayWindow = 5 calendar_days from Effective
        obligation PayFee {
            party: buyer
            action: "Pay fee"
            due: PayWindow
            condition: occurred(AcceptanceNotice)
        }
    }"#;

    let mut runtime = runtime_from_source(source);
    runtime.evaluate_at(day(2026, 3, 10));

    assert_eq!(
        runtime.states.get("PayFee"),
        Some(&ObligationState::Pending),
        "obligation should remain pending before AcceptanceNotice occurs",
    );
}

#[test]
fn obligation_without_condition_activates_when_evaluated() {
    let source = r#"contract Foo {
        obligation Standalone {
            party: seller
            action: "Do the thing"
            due: 5 calendar_days from Effective
        }
    }"#;

    let mut runtime = runtime_from_source(source);
    runtime.evaluate_at(day(2026, 3, 10));

    assert_eq!(
        runtime.states.get("Standalone"),
        Some(&ObligationState::Active),
        "obligation with no condition should activate during evaluation",
    );
}

#[test]
fn active_when_condition_becomes_true() {
    let source = r#"contract Foo {
        term DeliveryWindow = 10 calendar_days from Effective
        obligation DeliverSoftware {
            party: seller
            action: "Deliver software"
            due: DeliveryWindow
            condition: after(Effective)
        }
    }"#;

    let mut runtime = runtime_from_source(source);
    runtime.trigger_event(
        "Effective",
        day(2026, 3, 1),
    );

    assert_eq!(
        runtime.states.get("DeliverSoftware"),
        Some(&ObligationState::Active),
        "obligation should activate after Effective occurs",
    );
}

#[test]
fn active_obligation_breaches_after_deadline() {
    let source = r#"contract Foo {
        term DeliveryWindow = 1 calendar_days from Effective
        obligation DeliverSoftware {
            party: seller
            action: "Deliver software"
            due: DeliveryWindow
            condition: after(Effective)
        }
    }"#;

    let mut runtime = runtime_from_source(source);
    runtime.trigger_event(
        "Effective",
        day(2026, 3, 1),
    );
    runtime.evaluate_at(day(2026, 3, 3));

    assert_eq!(
        runtime.states.get("DeliverSoftware"),
        Some(&ObligationState::Breached),
        "obligation should breach once evaluation date exceeds due date",
    );
}

#[test]
fn remedy_phase_activates_when_target_breaches() {
    let source = r#"contract Foo {
        term DeliveryWindow = 1 calendar_days from Effective
        obligation DeliverSoftware {
            party: seller
            action: "Deliver software"
            due: DeliveryWindow
            condition: after(Effective)
        }

        remedy CureOrTerminate on breach_of(DeliverSoftware) {
            phase Cure {
                party: seller
                action: "Deliver software in cure period"
                due: 10 calendar_days from Effective
                condition: after(Effective)
            }
        }
    }"#;

    let mut runtime = runtime_from_source(source);
    runtime.trigger_event(
        "Effective",
        day(2026, 3, 1),
    );
    runtime.evaluate_at(day(2026, 3, 3));

    assert_eq!(
        runtime.states.get("DeliverSoftware"),
        Some(&ObligationState::Breached),
        "base obligation should breach first",
    );
    assert_eq!(
        runtime.states.get("CureOrTerminate.Cure"),
        Some(&ObligationState::Active),
        "phase obligation should activate after breach trigger",
    );
}

#[test]
fn breach_anchor_uses_first_day_after_due_not_eval_date() {
    let source = r#"contract Foo {
        term DeliveryWindow = 1 calendar_days from Effective
        term CurePeriod = 10 calendar_days from breach_of(DeliverSoftware)

        obligation DeliverSoftware {
            party: seller
            action: "Deliver software"
            due: DeliveryWindow
            condition: after(Effective)
        }

        remedy CureOrTerminate on breach_of(DeliverSoftware) {
            phase Cure {
                party: seller
                action: "Deliver software in cure period"
                due: CurePeriod
                condition: after(Effective)
            }
            phase Terminate on breach_of(Cure) {
                action: "Terminate contract"
            }
        }
    }"#;

    let mut runtime = runtime_from_source(source);
    runtime.trigger_event(
        "Effective",
        day(2026, 3, 1),
    );
    runtime.evaluate_at(day(2026, 4, 30));

    // DeliverSoftware due: 2026-03-02 -> breach date should lock to 2026-03-03.
    // CurePeriod (10 days) should therefore expire on 2026-03-13, so Cure is breached
    // and Terminate becomes active by 2026-04-30.
    assert_eq!(
        runtime.states.get("DeliverSoftware"),
        Some(&ObligationState::Breached)
    );
    assert_eq!(
        runtime.states.get("CureOrTerminate.Cure"),
        Some(&ObligationState::Breached)
    );
    assert_eq!(
        runtime.states.get("CureOrTerminate.Terminate"),
        Some(&ObligationState::Active)
    );
}

#[test]
fn query_state_includes_all_runtime_items_sorted() {
    let source = r#"contract Foo {
        term DeliveryWindow = 1 calendar_days from Effective
        obligation DeliverSoftware {
            party: seller
            action: "Deliver software"
            due: DeliveryWindow
            condition: after(Effective)
        }

        remedy CureOrTerminate on breach_of(DeliverSoftware) {
            phase Cure {
                party: seller
                action: "Deliver software in cure period"
                due: 10 calendar_days from Effective
                condition: after(Effective)
            }
        }
    }"#;

    let mut runtime = runtime_from_source(source);
    runtime.trigger_event(
        "Effective",
        day(2026, 3, 1),
    );
    runtime.evaluate_at(day(2026, 3, 3));

    let snapshots = runtime.query_state();
    let names: Vec<String> = snapshots.into_iter().map(|s| s.name).collect();
    assert_eq!(
        names,
        vec![
            "CureOrTerminate".to_string(),
            "CureOrTerminate.Cure".to_string(),
            "DeliverSoftware".to_string(),
        ],
        "query_state should include base + remedy + phase and sort names lexicographically",
    );
}

#[test]
fn query_state_computes_due_and_overdue_for_breached_item() {
    let source = r#"contract Foo {
        term DeliveryWindow = 1 calendar_days from Effective
        obligation DeliverSoftware {
            party: seller
            action: "Deliver software"
            due: DeliveryWindow
            condition: after(Effective)
        }
    }"#;

    let mut runtime = runtime_from_source(source);
    runtime.trigger_event(
        "Effective",
        day(2026, 3, 1),
    );
    runtime.evaluate_at(day(2026, 3, 5));

    let deliver = runtime
        .query_state()
        .into_iter()
        .find(|snapshot| snapshot.name == "DeliverSoftware")
        .expect("DeliverSoftware snapshot should exist");

    assert_eq!(deliver.state, ObligationState::Breached);
    assert_eq!(
        deliver.due_date,
        Some(day(2026, 3, 2))
    );
    assert_eq!(deliver.days_overdue, Some(3));
}

#[test]
fn simulate_with_does_not_mutate_canonical_runtime() {
    let source = r#"contract Foo {
        term DeliveryWindow = 1 calendar_days from Effective
        obligation Deliver {
            party: seller
            action: "Deliver software"
            due: DeliveryWindow
            condition: after(Effective)
        }
    }"#;

    let runtime = runtime_from_source(source);
    let hypothetical_events = vec![(
        "Effective".to_string(),
        day(2026, 3, 1),
    )];

    let simulated = runtime.simulate_with(
        &hypothetical_events,
        Some(day(2026, 3, 1)),
    );

    assert!(runtime.events.is_empty(), "canonical runtime must remain untouched");
    assert_eq!(runtime.current_date, None);
    assert_eq!(
        runtime.states.get("Deliver"),
        Some(&ObligationState::Pending),
        "canonical state should remain pending",
    );

    assert_eq!(simulated.events.len(), 1, "simulated runtime should include event");
    assert_eq!(
        simulated.states.get("Deliver"),
        Some(&ObligationState::Active),
        "simulated state should evaluate independently",
    );
}

#[test]
fn forked_runtime_can_diverge_from_canonical_state() {
    let source = r#"contract Foo {
        obligation Deliver {
            party: seller
            action: "Deliver software"
        }
    }"#;

    let canonical = runtime_from_source(source);
    let mut fork = canonical.fork();
    fork.satisfy("Deliver");

    assert_eq!(
        canonical.states.get("Deliver"),
        Some(&ObligationState::Pending),
        "canonical should stay unchanged after fork mutation",
    );
    assert_eq!(
        fork.states.get("Deliver"),
        Some(&ObligationState::Satisfied),
        "fork should mutate independently",
    );
}

#[test]
fn repeated_simulations_from_same_base_are_deterministic() {
    let source = r#"contract Foo {
        term DeliveryWindow = 1 calendar_days from Effective
        obligation Deliver {
            party: seller
            action: "Deliver software"
            due: DeliveryWindow
            condition: after(Effective)
        }
    }"#;

    let runtime = runtime_from_source(source);
    let hypothetical_events = vec![(
        "Effective".to_string(),
        day(2026, 3, 1),
    )];

    let sim_a = runtime.simulate_with(&hypothetical_events, None);
    let sim_b = runtime.simulate_with(&hypothetical_events, None);

    assert_eq!(sim_a.events, sim_b.events);
    assert_eq!(sim_a.current_date, sim_b.current_date);
    assert_eq!(sim_a.query_state(), sim_b.query_state());
}

#[test]
fn breach_cascade_traces_multi_step_and_scoped_dependencies() {
    let source = r#"contract Foo {
        term CureWindow = 5 calendar_days from breach_of(Cure)

        obligation DeliverSoftware {
            party: seller
            action: "Deliver software"
        }

        remedy CureOrTerminate on breach_of(DeliverSoftware) {
            phase Cure {
                action: "Cure delivery"
            }
            phase Notice {
                action: "Issue notice"
                due: CureWindow
                condition: satisfied(Cure)
            }
            phase Terminate on breach_of(Cure) {
                action: "Terminate contract"
            }
        }
    }"#;

    let runtime = runtime_from_source(source);
    let cascade = runtime.trace_breach_cascade("DeliverSoftware");

    assert!(
        cascade.links.iter().any(|link| {
            link.from == "DeliverSoftware"
                && link.to == "CureOrTerminate.Cure"
                && link.reason.contains("phase breach trigger")
        }),
        "breach should trigger cure phase",
    );
    assert!(
        cascade.links.iter().any(|link| {
            link.from == "CureOrTerminate.Cure"
                && link.to == "CureOrTerminate.Terminate"
                && link.reason.contains("phase breach trigger")
        }),
        "cure breach should trigger terminate phase via scoped breach_of(Cure)",
    );
    assert!(
        cascade.links.iter().any(|link| {
            link.from == "CureOrTerminate.Cure"
                && link.to == "CureOrTerminate.Notice"
                && (link.reason.contains("condition depends on satisfied")
                    || link.reason.contains("due date anchored by term"))
        }),
        "cure breach should impact notice phase via scoped dependency",
    );
}

#[test]
fn breach_cascade_is_deterministic_across_repeated_runs() {
    let source = r#"contract Foo {
        obligation DeliverSoftware {
            party: seller
            action: "Deliver software"
        }

        remedy CureOrTerminate on breach_of(DeliverSoftware) {
            phase Cure {
                action: "Cure delivery"
            }
        }
    }"#;

    let runtime = runtime_from_source(source);
    let first = runtime.trace_breach_cascade("DeliverSoftware");
    let second = runtime.trace_breach_cascade("DeliverSoftware");
    assert_eq!(first, second);
}

#[test]
fn snapshot_display_formats_pending_and_breached() {
    let pending = ObligationSnapshot {
        name: "PayLicenseFee".to_string(),
        state: ObligationState::Pending,
        due_date: None,
        days_overdue: None,
    };
    assert_eq!(
        pending.to_string(),
        "PayLicenseFee: PENDING (blocked - condition not met)"
    );

    let breached = ObligationSnapshot {
        name: "DeliverSoftware".to_string(),
        state: ObligationState::Breached,
        due_date: Some(day(2026, 4, 14)),
        days_overdue: Some(1),
    };
    assert_eq!(
        breached.to_string(),
        "DeliverSoftware: BREACHED (due 2026-04-14, OVERDUE by 1 day)"
    );
}


#[test]
fn evaluating_twice_at_the_same_date_changes_nothing() {
    let source = r#"contract Foo {
        term DeliveryWindow = 1 calendar_days from Effective
        obligation DeliverSoftware {
            party: seller
            action: "Deliver software"
            due: DeliveryWindow
            condition: after(Effective)
        }
        remedy CureOrTerminate on breach_of(DeliverSoftware) {
            phase Cure { action: "Cure" due: 10 calendar_days from Effective }
        }
    }"#;
    let mut runtime = runtime_from_source(source);
    runtime.trigger_event("Effective", day(2026, 3, 1));
    runtime.evaluate_at(day(2026, 3, 20));
    let once = runtime.query_state();
    runtime.evaluate_at(day(2026, 3, 20));
    assert_eq!(runtime.query_state(), once);
}

#[test]
fn states_never_move_backwards_over_time() {
    let source = r#"contract Foo {
        term DeliveryWindow = 1 calendar_days from Effective
        obligation DeliverSoftware {
            party: seller
            action: "Deliver software"
            due: DeliveryWindow
            condition: after(Effective)
        }
    }"#;
    let mut runtime = runtime_from_source(source);
    runtime.trigger_event("Effective", day(2026, 3, 1));
    runtime.evaluate_at(day(2026, 3, 5));
    assert_eq!(runtime.states.get("DeliverSoftware"), Some(&ObligationState::Breached));
    runtime.evaluate_at(day(2026, 3, 1));
    assert_eq!(runtime.states.get("DeliverSoftware"), Some(&ObligationState::Breached));
}

#[test]
fn satisfy_marks_only_known_items() {
    let source = r#"contract Foo {
        obligation Deliver { party: seller action: "Deliver software" }
    }"#;
    let mut runtime = runtime_from_source(source);
    runtime.satisfy("Missing");
    assert_eq!(runtime.states.get("Missing"), None);
    runtime.satisfy("Deliver");
    assert_eq!(runtime.states.get("Deliver"), Some(&ObligationState::Satisfied));
}

#[test]
fn cascade_links_are_sorted_and_rooted_at_the_resolved_item() {
    let source = r#"contract Foo {
        term CurePeriod = 10 business_days from breach_of(DeliverSoftware)
        obligation DeliverSoftware { action: "Deliver software" }
        remedy CureOrTerminate on breach_of(DeliverSoftware) {
            phase Cure { action: "Cure" due: CurePeriod }
            phase Terminate on breach_of(Cure) { action: "Refund" }
        }
    }"#;
    let runtime = runtime_from_source(source);
    let cascade = runtime.trace_breach_cascade("DeliverSoftware");
    assert_eq!(cascade.root, "DeliverSoftware");
    let shown: Vec<(String, String, String)> = cascade
        .links
        .iter()
        .map(|l| (l.from.clone(), l.to.clone(), l.reason.clone()))
        .collect();
    assert_eq!(
        shown,
        vec![
            ("CureOrTerminate.Cure".to_string(), "CureOrTerminate.Terminate".to_string(), "phase breach trigger".to_string()),
            ("DeliverSoftware".to_string(), "CureOrTerminate".to_string(), "remedy breach target".to_string()),
            ("DeliverSoftware".to_string(), "CureOrTerminate.Cure".to_string(), "due date anchored by term 'CurePeriod'".to_string()),
            ("DeliverSoftware".to_string(), "CureOrTerminate.Cure".to_string(), "phase breach trigger".to_string()),
        ]
    );
}

#[test]
fn snapshot_display_formats_active_and_plural_overdue() {
    let active = ObligationSnapshot {
        name: "Pay".to_string(),
        state: ObligationState::Active,
        due_date: Some(day(2026, 4, 9)),
        days_overdue: None,
    };
    assert_eq!(active.to_string(), "Pay: ACTIVE (due 2026-04-09)");
    let late = ObligationSnapshot {
        name: "Deliver".to_string(),
        state: ObligationState::Breached,
        due_date: Some(day(2026, 4, 10)),
        days_overdue: Some(40),
    };
    assert_eq!(late.to_string(), "Deliver: BREACHED (due 2026-04-10, OVERDUE by 40 days)");
    let plain = ObligationSnapshot {
        name: "CureOrTerminate".to_string(),
        state: ObligationState::Active,
        due_date: None,
        days_overdue: None,
    };
    assert_eq!(plain.to_string(), "CureOrTerminate: ACTIVE");
}

#[test]
fn runtime_builds_with_a_calendar_without_business_weekdays() {
    let contract = contract_from_source(r#"contract C { obligation O { action: "a" } }"#);
    let idle = CalendarDef {
        id: "idle".to_string(),
        jurisdiction: None,
        business_weekdays: vec![],
        holidays: vec![],
    };
    let registry = CalendarRegistry::from_calendars("idle", vec![idle]).expect("registry");
    let runtime = ContractRuntime::with_calendar_registry(contract, registry);
    assert!(runtime.is_ok());
    let mut runtime = runtime.unwrap();
    assert!(runtime.has_item("O"));
    runtime.evaluate_at(day(2026, 3, 2));
    let snaps = runtime.query_state();
    assert_eq!(snaps.len(), 1);
    assert_eq!(snaps[0].state, ObligationState::Active);
}

#[test]
fn unused_calendar_without_business_weekdays_does_not_stop_evaluation() {
    let contract = contract_from_source(
        r#"contract C {
            event Effective = date("2026-03-02")
            term Window = 2 business_days from Effective
            obligation O { action: "a" due: Window }
        }"#,
    );
    let idle = CalendarDef {
        id: "idle".to_string(),
        jurisdiction: None,
        business_weekdays: vec![],
        holidays: vec![],
    };
    let registry = CalendarRegistry::from_calendars(
        "default",
        vec![CalendarDef::standard("default"), idle],
    )
    .expect("registry");
    let mut runtime = ContractRuntime::with_calendar_registry(contract, registry).expect("runtime");
    runtime.trigger_event("Effective", day(2026, 3, 2));
    runtime.evaluate_at(day(2026, 3, 10));
    let snaps = runtime.query_state();
    assert_eq!(snaps[0].state, ObligationState::Breached);
    assert_eq!(snaps[0].due_date, Some(day(2026, 3, 4)));
}

#[test]
fn cascade_links_start_at_the_root_or_at_a_reached_item() {
    let source = r#"contract Foo {
        term CureWindow = 5 calendar_days from breach_of(Cure)
        obligation DeliverSoftware { action: "Deliver software" }
        remedy CureOrTerminate on breach_of(DeliverSoftware) {
            phase Cure { action: "Cure delivery" }
            phase Notice { action: "Issue notice" due: CureWindow condition: satisfied(Cure) }
            phase Terminate on breach_of(Cure) { action: "Terminate contract" }
        }
    }"#;
    let runtime = runtime_from_source(source);
    let cascade = runtime.trace_breach_cascade("DeliverSoftware");
    assert!(!cascade.links.is_empty());
    for link in &cascade.links {
        assert!(
            link.from == cascade.root || cascade.links.iter().any(|other| other.to == link.from),
            "link from {} has no source in the cascade",
            link.from
        );
        assert!(
            link.reason == "remedy breach target"
                || link.reason == "phase breach trigger"
                || link.reason.ends_with("condition depends on satisfied(...)")
                || link.reason.starts_with("due date anchored by term '")
        );
    }
    assert_eq!(runtime.trace_breach_cascade("DeliverSoftware"), cascade);
}
