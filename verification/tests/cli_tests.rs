use chrono::{Datelike, NaiveDate};
use kontra::cli::{
    cascade_lines, contract_summary_lines, format_simulation_output, join_list, parse_date, parse_eval_options,
    parse_simulate_options, parse_trigger_arg, render_simulation_output, repl_action, repl_help_text,
    resolve_runtime_item_for_cascade, run_cli, run_help_text, usage_error, CliCommand, ReplAction,
};
use kontra::compiler::Compiler;
use kontra::engine::ContractRuntime;
use kontra::types::CalendarRegistry;
use kontra::vm::VM;

/// The day number of a calendar date.
fn day(year: i32, month: u32, dom: u32) -> i64 {
    NaiveDate::from_ymd_opt(year, month, dom).expect("valid date").num_days_from_ce() as i64
}

fn runtime_from_source(source: &str) -> ContractRuntime {
    let chunk = Compiler::compile(source).expect("compile should succeed");
    let contract = VM::interpret(chunk).expect("vm interpret should succeed");
    let registry = CalendarRegistry::phase2_default();
    ContractRuntime::with_calendar_registry(contract, registry)
        .expect("runtime should build from source")
}

#[test]
fn parse_date_accepts_valid_iso() {
    let date = parse_date("2026-03-01").expect("should parse");
    assert_eq!(date, day(2026, 3, 1));
}

#[test]
fn parse_date_rejects_invalid_format() {
    let err = parse_date("03/01/2026").expect_err("should reject non-iso date");
    assert!(err.contains("Expected YYYY-MM-DD"));
}

#[test]
fn parse_trigger_arg_accepts_valid_pair() {
    let (name, date) =
        parse_trigger_arg("Effective=2026-03-01").expect("should parse trigger");
    assert_eq!(name, "Effective");
    assert_eq!(date, day(2026, 3, 1));
}

#[test]
fn parse_trigger_arg_rejects_missing_equal() {
    let err = parse_trigger_arg("Effective-2026-03-01").expect_err("should fail");
    assert!(err.contains("Expected EventName=YYYY-MM-DD"));
}

#[test]
fn parse_eval_options_parses_repeated_trigger_and_at() {
    let args = vec![
        "--trigger".to_string(),
        "Effective=2026-03-01".to_string(),
        "--trigger".to_string(),
        "Delivery=2026-03-15".to_string(),
        "--at".to_string(),
        "2026-04-01".to_string(),
    ];

    let options = parse_eval_options(&args).expect("options should parse");
    assert_eq!(options.triggers.len(), 2);
    assert_eq!(options.triggers[0].0, "Effective");
    assert_eq!(options.triggers[1].0, "Delivery");
    assert_eq!(
        options.at,
        Some(day(2026, 4, 1))
    );
}

#[test]
fn parse_eval_options_rejects_unknown_flag() {
    let args = vec!["--oops".to_string()];
    let err = parse_eval_options(&args).expect_err("unknown flag should fail");
    assert!(err.contains("Unknown eval argument"));
}

#[test]
fn parse_simulate_options_parses_repeated_trigger_and_at() {
    let args = vec![
        "--trigger".to_string(),
        "Effective=2026-03-01".to_string(),
        "--trigger".to_string(),
        "Delivery=2026-03-15".to_string(),
        "--at".to_string(),
        "2026-04-01".to_string(),
    ];

    let options = parse_simulate_options(&args).expect("simulate options should parse");
    assert_eq!(options.triggers.len(), 2);
    assert_eq!(options.triggers[0].0, "Effective");
    assert_eq!(options.triggers[1].0, "Delivery");
    assert_eq!(
        options.at,
        Some(day(2026, 4, 1))
    );
}

#[test]
fn parse_simulate_options_requires_trigger() {
    let args = vec!["--at".to_string(), "2026-04-01".to_string()];
    let err = parse_simulate_options(&args).expect_err("simulate should require trigger");
    assert!(err.contains("At least one --trigger is required for simulate"));
}

#[test]
fn parse_simulate_options_rejects_unknown_flag() {
    let args = vec!["--oops".to_string()];
    let err = parse_simulate_options(&args).expect_err("unknown flag should fail");
    assert!(err.contains("Usage error"));
    assert!(err.contains("Unknown simulate argument"));
}

#[test]
fn format_simulation_output_labels_canonical_and_simulated_sections() {
    let canonical = vec!["Deliver: PENDING (blocked - condition not met)".to_string()];
    let simulated = vec!["Deliver: ACTIVE (due 2026-03-15)".to_string()];

    let output = format_simulation_output(&canonical, &simulated);
    assert!(output.contains("Canonical state:"));
    assert!(output.contains("Simulated state:"));
    assert!(output.contains("Deliver: PENDING"));
    assert!(output.contains("Deliver: ACTIVE"));
}

#[test]
fn render_simulation_output_matches_expected_golden_flow() {
    let runtime = runtime_from_source(
        r#"contract Foo {
            term DeliveryWindow = 1 calendar_days from Effective
            obligation Deliver {
                party: seller
                action: "Deliver software"
                due: DeliveryWindow
                condition: after(Effective)
            }
        }"#,
    );
    let options = parse_simulate_options(&[
        "--trigger".to_string(),
        "Effective=2026-03-01".to_string(),
        "--at".to_string(),
        "2026-03-01".to_string(),
    ])
    .expect("simulate options should parse");

    let output = render_simulation_output(&runtime, &options);
    let expected = "Canonical state:
Deliver: PENDING (blocked - condition not met)

Simulated state:
Deliver: ACTIVE (due 2026-03-02)";
    assert_eq!(output, expected);
}

#[test]
fn parse_simulate_options_parses_multiple_triggers_without_at() {
    let args = vec![
        "--trigger".to_string(),
        "Effective=2026-03-01".to_string(),
        "--trigger".to_string(),
        "Delivery=2026-03-20".to_string(),
    ];

    let options = parse_simulate_options(&args).expect("simulate options should parse");
    assert_eq!(options.triggers.len(), 2);
    assert_eq!(options.at, None);
}

#[test]
fn parse_eval_options_rejects_malformed_at_date() {
    let args = vec!["--at".to_string(), "03-01-2026".to_string()];
    let err = parse_eval_options(&args).expect_err("malformed date should fail");
    assert!(err.contains("Invalid date"));
    assert!(err.contains("YYYY-MM-DD"));
}

#[test]
fn run_cli_unknown_subcommand_is_actionable() {
    let err = run_cli(vec!["unknown".to_string()]).expect_err("unknown subcommand should fail");
    assert!(err.contains("Unknown subcommand 'unknown'"));
    assert!(err.contains("Usage:"));
}

#[test]
fn run_help_text_has_clear_usage() {
    let text = run_help_text();
    assert!(text.contains("Usage:"));
    assert!(text.contains("kontra run <file>"));
}

#[test]
fn repl_help_text_includes_simulate_cascade_and_examples() {
    let text = repl_help_text();
    assert!(text.contains("simulate --trigger"));
    assert!(text.contains("cascade <runtime-item>"));
    assert!(text.contains("Examples:"));
    assert!(text.contains("load examples/software_license.k"));
}

#[test]
fn resolve_runtime_item_for_cascade_rejects_unknown_item() {
    let runtime = runtime_from_source(
        r#"contract Foo {
            obligation DeliverSoftware { action: "Deliver software" }
        }"#,
    );

    let err = resolve_runtime_item_for_cascade(&runtime, "MissingItem")
        .expect_err("unknown item should fail");
    assert!(err.contains("Unknown runtime item 'MissingItem'"));
}

#[test]
fn resolve_runtime_item_for_cascade_supports_unique_suffix_match() {
    let runtime = runtime_from_source(
        r#"contract Foo {
            obligation DeliverSoftware { action: "Deliver software" }
            remedy CureOrTerminate on breach_of(DeliverSoftware) {
                phase Cure { action: "Cure" }
            }
        }"#,
    );

    let resolved =
        resolve_runtime_item_for_cascade(&runtime, "Cure").expect("single suffix should resolve");
    assert_eq!(resolved, "CureOrTerminate.Cure");
}

#[test]
fn resolve_runtime_item_for_cascade_rejects_ambiguous_suffix_match() {
    let runtime = runtime_from_source(
        r#"contract Foo {
            obligation DeliverSoftware { action: "Deliver software" }
            obligation PayFee { action: "Pay fee" }
            remedy CureA on breach_of(DeliverSoftware) { phase Cure { action: "Cure A" } }
            remedy CureB on breach_of(PayFee) { phase Cure { action: "Cure B" } }
        }"#,
    );

    let err = resolve_runtime_item_for_cascade(&runtime, "Cure")
        .expect_err("ambiguous suffix should fail");
    assert!(err.contains("Ambiguous runtime item 'Cure'"));
    assert!(err.contains("CureA.Cure"));
    assert!(err.contains("CureB.Cure"));
}


fn strings(items: &[&str]) -> Vec<String> {
    items.iter().map(|s| s.to_string()).collect()
}

#[test]
fn parse_trigger_arg_trims_and_refuses_empty_names() {
    let (name, date) = parse_trigger_arg(" Delivery = 2026-03-20 ").expect("should parse");
    assert_eq!(name, "Delivery");
    assert_eq!(date, day(2026, 3, 20));
    assert_eq!(parse_trigger_arg("  =2026-03-20").unwrap_err(), "Trigger event name cannot be empty");
    assert_eq!(
        parse_trigger_arg("A=03-01-2026").unwrap_err(),
        "Invalid date '03-01-2026'. Expected YYYY-MM-DD."
    );
    assert_eq!(
        parse_trigger_arg("A").unwrap_err(),
        "Invalid trigger 'A'. Expected EventName=YYYY-MM-DD."
    );
}

#[test]
fn options_missing_values_are_usage_errors() {
    let err = parse_eval_options(&strings(&["--trigger"])).unwrap_err();
    assert!(err.starts_with("Usage error: Expected value after --trigger.\n\n"));
    let err = parse_eval_options(&strings(&["--at"])).unwrap_err();
    assert!(err.starts_with("Usage error: Expected value after --at.\n\n"));
    let options = parse_eval_options(&strings(&["--at", "2026-04-01", "--at", "2026-04-02"])).unwrap();
    assert_eq!(options.at, Some(day(2026, 4, 2)));
    assert!(options.triggers.is_empty());
}

#[test]
fn usage_error_and_join_list_layout() {
    assert_eq!(usage_error("bad", "HELP"), "Usage error: bad\n\nHELP");
    assert_eq!(join_list(&[]), "(none)");
    assert_eq!(join_list(&strings(&["a", "b", "c"])), "a, b, c");
    assert_eq!(
        format_simulation_output(&[], &strings(&["x"])),
        "Canonical state:\n(none)\n\nSimulated state:\nx"
    );
}

#[test]
fn run_cli_dispatches_subcommands() {
    match run_cli(Vec::new()).unwrap() {
        CliCommand::Print(text) => assert!(text.starts_with("kontra - contracts as code")),
        other => panic!("unexpected {:?}", other),
    }
    match run_cli(strings(&["eval", "c.k", "--at", "2026-04-01"])).unwrap() {
        CliCommand::Eval { path, options } => {
            assert_eq!(path, "c.k");
            assert_eq!(options, strings(&["--at", "2026-04-01"]));
        }
        other => panic!("unexpected {:?}", other),
    }
    match run_cli(strings(&["cascade", "c.k", "Deliver"])).unwrap() {
        CliCommand::Cascade { path, item } => {
            assert_eq!(path, "c.k");
            assert_eq!(item, "Deliver");
        }
        other => panic!("unexpected {:?}", other),
    }
    match run_cli(strings(&["run", "--help"])).unwrap() {
        CliCommand::Print(text) => assert_eq!(text, run_help_text()),
        other => panic!("unexpected {:?}", other),
    }
    let err = run_cli(strings(&["diff", "only-one.k"])).unwrap_err();
    assert!(err.starts_with("Usage error: diff expects exactly two contract file paths"));
    let err = run_cli(strings(&["repl", "extra"])).unwrap_err();
    assert!(err.starts_with("Usage error: repl does not take positional arguments."));
}

#[test]
fn repl_lines_map_to_actions() {
    let runtime = runtime_from_source(
        r#"contract Foo {
            obligation DeliverSoftware { action: "Deliver software" }
            remedy CureOrTerminate on breach_of(DeliverSoftware) {
                phase Cure { action: "Cure" }
            }
        }"#,
    );
    assert!(matches!(repl_action("   ", None), ReplAction::Skip));
    assert!(matches!(repl_action("help", None), ReplAction::Help));
    assert!(matches!(repl_action("exit", None), ReplAction::Quit));
    match repl_action("trigger Effective 2026-03-01", None) {
        ReplAction::Error(m) => assert_eq!(m, "No contract loaded. Use: load <file>"),
        other => panic!("unexpected {:?}", other),
    }
    match repl_action("trigger Effective 2026-03-01", Some(&runtime)) {
        ReplAction::Trigger(name, date) => {
            assert_eq!(name, "Effective");
            assert_eq!(date, day(2026, 3, 1));
        }
        other => panic!("unexpected {:?}", other),
    }
    match repl_action("cascade Cure", Some(&runtime)) {
        ReplAction::Cascade(item) => assert_eq!(item, "CureOrTerminate.Cure"),
        other => panic!("unexpected {:?}", other),
    }
    match repl_action("load", None) {
        ReplAction::Error(m) => assert_eq!(m, "Usage: load <file>"),
        other => panic!("unexpected {:?}", other),
    }
    match repl_action("dance", None) {
        ReplAction::Error(m) => assert_eq!(m, "Unknown command. Type 'help' for commands."),
        other => panic!("unexpected {:?}", other),
    }
}

#[test]
fn cascade_and_summary_lines() {
    let runtime = runtime_from_source(
        r#"contract Foo {
            parties { seller: "Acme" buyer: "Beta" }
            obligation DeliverSoftware { action: "Deliver software" }
            remedy CureOrTerminate on breach_of(DeliverSoftware) {
                phase Cure { action: "Cure" }
            }
        }"#,
    );
    let cascade = runtime.trace_breach_cascade("DeliverSoftware");
    assert_eq!(
        cascade_lines(&cascade),
        strings(&[
            "Cascade from 'DeliverSoftware':",
            "- DeliverSoftware -> CureOrTerminate (remedy breach target)",
            "- DeliverSoftware -> CureOrTerminate.Cure (phase breach trigger)",
        ])
    );
    let leaf = runtime.trace_breach_cascade("CureOrTerminate");
    assert_eq!(
        cascade_lines(&leaf),
        strings(&["Cascade from 'CureOrTerminate':", "(no downstream effects)"])
    );
    assert_eq!(
        contract_summary_lines(&runtime.contract),
        strings(&[
            "Parties (2): buyer, seller",
            "Events (0): (none)",
            "Terms (0): (none)",
            "Obligations (1): DeliverSoftware",
            "Remedies (1): CureOrTerminate",
            "Phases (1): CureOrTerminate.Cure",
        ])
    );
}
