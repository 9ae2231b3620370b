use kontra::compiler::Compiler;
use kontra::diff::{compare_party, diff_contracts, diff_single_field, generate_risk_warnings, render_contract_diff, ItemDiffKind};
use kontra::types::Party;
use kontra::types::ContractDef;
use kontra::vm::VM;

fn contract_from_source(source: &str) -> ContractDef {
    let chunk = Compiler::compile(source).expect("compile should succeed");
    VM::interpret(chunk).expect("vm interpret should succeed")
}

#[test]
fn diff_parties_detects_field_level_change() {
    let old = contract_from_source(r#"contract C { parties { buyer: "Alice" } }"#);
    let new = contract_from_source(r#"contract C { parties { buyer: "Alicia" } }"#);

    let diff = diff_contracts(&old, &new);
    assert_eq!(diff.parties.len(), 1);
    assert_eq!(diff.parties[0].kind, ItemDiffKind::Changed);
    assert_eq!(diff.parties[0].key, "buyer");
    assert_eq!(diff.parties[0].changes[0].field, "name");
}

#[test]
fn diff_events_detects_changed_definition() {
    let old = contract_from_source(r#"contract C { event Effective = date("2026-03-01") }"#);
    let new = contract_from_source(r#"contract C { event Effective = date("2026-03-15") }"#);

    let diff = diff_contracts(&old, &new);
    assert_eq!(diff.events.len(), 1);
    assert_eq!(diff.events[0].kind, ItemDiffKind::Changed);
    assert_eq!(diff.events[0].changes[0].field, "date");
}

#[test]
fn diff_terms_detects_duration_change() {
    let old = contract_from_source(
        r#"contract C { term DeliveryWindow = 10 calendar_days from Effective }"#,
    );
    let new = contract_from_source(
        r#"contract C { term DeliveryWindow = 15 calendar_days from Effective }"#,
    );

    let diff = diff_contracts(&old, &new);
    assert_eq!(diff.terms.len(), 1);
    assert_eq!(diff.terms[0].kind, ItemDiffKind::Changed);
    assert!(
        diff.terms[0]
            .changes
            .iter()
            .any(|change| change.field == "duration.amount")
    );
}

#[test]
fn diff_obligations_detects_condition_change() {
    let old = contract_from_source(
        r#"contract C {
            obligation Pay {
                party: buyer
                action: "Pay fee"
                condition: occurred(AcceptanceNotice)
            }
        }"#,
    );
    let new = contract_from_source(
        r#"contract C {
            obligation Pay {
                party: buyer
                action: "Pay fee"
                condition: satisfied(DeliverSoftware)
            }
        }"#,
    );

    let diff = diff_contracts(&old, &new);
    assert_eq!(diff.obligations.len(), 1);
    assert_eq!(diff.obligations[0].kind, ItemDiffKind::Changed);
    assert!(
        diff.obligations[0]
            .changes
            .iter()
            .any(|change| change.field == "condition")
    );
}

#[test]
fn diff_remedies_detects_breach_target_change() {
    let old = contract_from_source(
        r#"contract C {
            remedy LateFee on breach_of(PayFee) { action: "Charge fee" }
        }"#,
    );
    let new = contract_from_source(
        r#"contract C {
            remedy LateFee on breach_of(PayInvoice) { action: "Charge fee" }
        }"#,
    );

    let diff = diff_contracts(&old, &new);
    assert_eq!(diff.remedies.len(), 1);
    assert_eq!(diff.remedies[0].kind, ItemDiffKind::Changed);
    assert!(
        diff.remedies[0]
            .changes
            .iter()
            .any(|change| change.field == "breach_target")
    );
}

#[test]
fn diff_phases_detects_phase_field_change() {
    let old = contract_from_source(
        r#"contract C {
            remedy CureOrTerminate on breach_of(DeliverSoftware) {
                phase Cure { action: "Deliver software" }
            }
        }"#,
    );
    let new = contract_from_source(
        r#"contract C {
            remedy CureOrTerminate on breach_of(DeliverSoftware) {
                phase Cure { action: "Deliver software in cure period" }
            }
        }"#,
    );

    let diff = diff_contracts(&old, &new);
    assert_eq!(diff.phases.len(), 1);
    assert_eq!(diff.phases[0].kind, ItemDiffKind::Changed);
    assert!(
        diff.phases[0]
            .changes
            .iter()
            .any(|change| change.field == "action")
    );
}

#[test]
fn diff_ordering_is_deterministic_independent_of_declaration_order() {
    let old = contract_from_source(
        r#"contract C {
            event B = date("2026-03-01")
            event A = date("2026-03-01")
        }"#,
    );
    let new = contract_from_source(
        r#"contract C {
            event A = date("2026-03-02")
            event B = date("2026-03-03")
        }"#,
    );

    let diff = diff_contracts(&old, &new);
    assert_eq!(diff.events.len(), 2);
    assert_eq!(diff.events[0].key, "A");
    assert_eq!(diff.events[1].key, "B");
}

#[test]
fn render_diff_includes_changed_term_added_obligation_and_removed_phase() {
    let old = contract_from_source(
        r#"contract C {
            term DeliveryPeriod = 30 business_days from Effective
            obligation DeliverSoftware { action: "Deliver software" }
            remedy CureOrTerminate on breach_of(DeliverSoftware) {
                phase Cure { action: "Cure" }
            }
        }"#,
    );
    let new = contract_from_source(
        r#"contract C {
            term DeliveryPeriod = 45 business_days from Effective
            obligation DeliverSoftware { action: "Deliver software" }
            obligation AuditRights { action: "Allow audit annually" }
            remedy CureOrTerminate on breach_of(DeliverSoftware) {}
        }"#,
    );

    let diff = diff_contracts(&old, &new);
    let lines = render_contract_diff(&diff);

    assert!(lines.iter().any(|line| {
        line.contains("CHANGED: TERM DeliveryPeriod") && line.contains("duration.amount")
    }));
    assert!(
        lines.iter()
            .any(|line| line.contains("ADDED: OBLIGATION AuditRights"))
    );
    assert!(
        lines.iter()
            .any(|line| line.contains("REMOVED: PHASE CureOrTerminate.Cure"))
    );
}

#[test]
fn risk_warnings_flag_removed_terminal_remedy_and_removed_phase() {
    let old = contract_from_source(
        r#"contract C {
            obligation DeliverSoftware { action: "Deliver software" }
            remedy CureOrTerminate on breach_of(DeliverSoftware) {
                phase Cure { action: "Cure" }
            }
        }"#,
    );
    let new = contract_from_source(
        r#"contract C {
            obligation DeliverSoftware { action: "Deliver software" }
        }"#,
    );

    let diff = diff_contracts(&old, &new);
    let warnings = generate_risk_warnings(&old, &new, &diff);

    assert!(
        warnings
            .iter()
            .any(|warning| warning.contains("breach of 'DeliverSoftware' now has no remedy"))
    );
    assert!(
        warnings
            .iter()
            .any(|warning| warning.contains("removed remedy phase 'CureOrTerminate.Cure'"))
    );
}


#[test]
fn diff_of_a_contract_with_itself_is_empty() {
    let source = r#"contract C {
        parties { buyer: "Alice" }
        event Effective = date("2026-03-01")
        term DeliveryPeriod = 30 business_days from Effective
        obligation DeliverSoftware { action: "Deliver software" due: DeliveryPeriod }
        remedy CureOrTerminate on breach_of(DeliverSoftware) {
            phase Cure { action: "Cure" }
        }
    }"#;
    let a = contract_from_source(source);
    let b = contract_from_source(source);
    let diff = diff_contracts(&a, &b);
    assert_eq!(render_contract_diff(&diff), vec!["No changes detected.".to_string()]);
    assert!(generate_risk_warnings(&a, &b, &diff).is_empty());
}

#[test]
fn render_diff_lists_field_changes_in_one_line() {
    let old = contract_from_source(r#"contract C { term T = 30 business_days from Effective }"#);
    let new = contract_from_source(r#"contract C { term T = 45 business_days from Effective }"#);
    let lines = render_contract_diff(&diff_contracts(&old, &new));
    assert_eq!(lines, vec!["CHANGED: TERM T — duration.amount: 30 -> 45".to_string()]);
}

#[test]
fn diff_single_field_reports_only_differences() {
    let same = diff_single_field("action", "Pay", "Pay");
    assert!(same.is_empty());
    let changed = diff_single_field("action", "Pay", "Ship");
    assert_eq!(changed.len(), 1);
    assert_eq!(changed[0].field, "action");
    assert_eq!(changed[0].old, "Pay");
    assert_eq!(changed[0].new, "Ship");
}

#[test]
fn compare_party_reports_name_change() {
    let old = Party { role: "buyer".to_string(), name: "Alice".to_string() };
    let new = Party { role: "buyer".to_string(), name: "Alicia".to_string() };
    let changes = compare_party(&old, &new);
    assert_eq!(changes.len(), 1);
    assert_eq!(changes[0].field, "name");
    assert!(changes[0].old.contains("Alice"));
    assert!(changes[0].new.contains("Alicia"));
    assert!(compare_party(&old, &old).is_empty());
}

#[test]
fn obligation_field_changes_show_debug_renderings() {
    let old = contract_from_source(
        r#"contract C { obligation Pay { party: buyer action: "Pay fee" } }"#,
    );
    let new = contract_from_source(
        r#"contract C { obligation Pay { party: buyer action: "Pay late fee" } }"#,
    );
    let diff = diff_contracts(&old, &new);
    assert_eq!(diff.obligations.len(), 1);
    let change = &diff.obligations[0].changes[0];
    assert_eq!(change.field, "action");
    assert_eq!(change.old, "Some(\"Pay fee\")");
    assert_eq!(change.new, "Some(\"Pay late fee\")");
}
