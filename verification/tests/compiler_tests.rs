use kontra::chunk::{OpCode, Value};
use kontra::compiler::Compiler;

fn op(byte: u8) -> OpCode {
    OpCode::from_byte(byte).expect("byte should be an opcode")
}

#[test]
fn compile_empty_string_produces_return() {
    let chunk = Compiler::compile("").expect("should compile empty source");

    // The only opcode should be Return.
    assert_eq!(chunk.code.len(), 1);
    assert_eq!(op(chunk.code[0]), OpCode::Return);
}

#[test]
fn compile_whitespace_only_produces_return() {
    let chunk = Compiler::compile("   \n\n\t  ")
        .expect("should compile whitespace-only source");

    assert_eq!(chunk.code.len(), 1);
    assert_eq!(op(chunk.code[0]), OpCode::Return);
}

#[test]
fn compile_tracks_error_on_bad_token() {
    // An unterminated string should cause a compile error.
    let result = Compiler::compile(r#""oops"#);
    assert!(result.is_err());

    let err = result.unwrap_err();
    let msg = err.to_string();
    assert!(
        msg.contains("Unterminated string"),
        "expected 'Unterminated string' in error, got: {}",
        msg
    );
}

// ── Block 7: Contract & Parties ─────────────────────────────────

#[test]
fn compile_single_party_contract() {
    let source = r#"contract Foo { parties { buyer: "Alice" } }"#;
    let chunk = Compiler::compile(source).expect("should compile");

    // Constants: Identifier("buyer"), Str("Alice")
    assert_eq!(chunk.constants.len(), 2);
    assert_eq!(chunk.constants[0], Value::Identifier("buyer".into()));
    assert_eq!(chunk.constants[1], Value::Str("Alice".into()));

    // Byte sequence: [Constant, 0, Constant, 1, DefineParty, Return]
    assert_eq!(chunk.code.len(), 6);
    assert_eq!(op(chunk.code[0]), OpCode::Constant);
    assert_eq!(chunk.code[1], 0); // index of "buyer"
    assert_eq!(op(chunk.code[2]), OpCode::Constant);
    assert_eq!(chunk.code[3], 1); // index of "Alice"
    assert_eq!(op(chunk.code[4]), OpCode::DefineParty);
    assert_eq!(op(chunk.code[5]), OpCode::Return);

    // Verify disassembly contains DefineParty
    let dis = chunk.disassemble_to_string("single-party");
    assert!(dis.contains("DefineParty"), "disassembly:\n{}", dis);
}

#[test]
fn compile_multi_party_contract() {
    let source = r#"contract Deal {
        parties {
            buyer: "Alice"
            seller: "Bob"
        }
    }"#;
    let chunk = Compiler::compile(source).expect("should compile");

    // Four constants: buyer, Alice, seller, Bob
    assert_eq!(chunk.constants.len(), 4);
    assert_eq!(chunk.constants[0], Value::Identifier("buyer".into()));
    assert_eq!(chunk.constants[1], Value::Str("Alice".into()));
    assert_eq!(chunk.constants[2], Value::Identifier("seller".into()));
    assert_eq!(chunk.constants[3], Value::Str("Bob".into()));

    // Walk the bytecode and count DefineParty opcodes (skipping operands).
    let mut i = 0;
    let mut define_count = 0;
    while i < chunk.code.len() {
        let op = op(chunk.code[i]);
        if op == OpCode::Constant {
            i += 2; // opcode + index operand
        } else {
            if op == OpCode::DefineParty {
                define_count += 1;
            }
            i += 1;
        }
    }
    assert_eq!(define_count, 2, "expected 2 DefineParty opcodes");

    // Last byte is Return
    assert_eq!(
        op(*chunk.code.last().unwrap()),
        OpCode::Return,
    );
}

#[test]
fn compile_contract_missing_closing_brace() {
    let source = r#"contract Foo { parties { buyer: "Alice" }"#;
    let result = Compiler::compile(source);
    assert!(result.is_err());

    let msg = result.unwrap_err().to_string();
    assert!(
        msg.contains("Expected '}'"),
        "expected closing-brace error, got: {}",
        msg
    );
}

#[test]
fn compile_contract_missing_contract_keyword() {
    let source = r#"parties { buyer: "Alice" }"#;
    let result = Compiler::compile(source);
    assert!(result.is_err());

    let msg = result.unwrap_err().to_string();
    assert!(
        msg.contains("Expected 'contract'"),
        "expected keyword error, got: {}",
        msg
    );
}

#[test]
fn compile_empty_contract_body_produces_return_only() {
    let source = r#"contract Empty {}"#;
    let chunk = Compiler::compile(source).expect("empty contract should compile");
    assert_eq!(chunk.code.len(), 1);
    assert_eq!(op(chunk.code[0]), OpCode::Return);
}

// ── Block 8: Events ─────────────────────────────────────────────

#[test]
fn compile_event_date_decl() {
    let source = r#"contract Foo { event Effective = date("2026-03-01") }"#;
    let chunk = Compiler::compile(source).expect("should compile");

    assert_eq!(chunk.constants.len(), 2);
    assert_eq!(chunk.constants[0], Value::Identifier("Effective".into()));
    assert_eq!(chunk.constants[1], Value::Str("2026-03-01".into()));

    // [Constant, 0, Constant, 1, DefineEvent, Return]
    assert_eq!(chunk.code.len(), 6);
    assert_eq!(op(chunk.code[0]), OpCode::Constant);
    assert_eq!(chunk.code[1], 0);
    assert_eq!(op(chunk.code[2]), OpCode::Constant);
    assert_eq!(chunk.code[3], 1);
    assert_eq!(op(chunk.code[4]), OpCode::DefineEvent);
    assert_eq!(op(chunk.code[5]), OpCode::Return);
}

#[test]
fn compile_event_triggered_by_decl() {
    let source = r#"contract Foo { event Delivery = triggered_by(seller) }"#;
    let chunk = Compiler::compile(source).expect("should compile");

    assert_eq!(chunk.constants.len(), 2);
    assert_eq!(chunk.constants[0], Value::Identifier("Delivery".into()));
    assert_eq!(chunk.constants[1], Value::Identifier("seller".into()));

    // [Constant, 0, Constant, 1, DefineEvent, Return]
    assert_eq!(chunk.code.len(), 6);
    assert_eq!(op(chunk.code[0]), OpCode::Constant);
    assert_eq!(chunk.code[1], 0);
    assert_eq!(op(chunk.code[2]), OpCode::Constant);
    assert_eq!(chunk.code[3], 1);
    assert_eq!(op(chunk.code[4]), OpCode::DefineEvent);
    assert_eq!(op(chunk.code[5]), OpCode::Return);
}

// ── Block 9: Terms ──────────────────────────────────────────────

#[test]
fn compile_term_calendar_days_from_event() {
    let source = r#"contract Foo { term CurePeriod = 10 calendar_days from Effective }"#;
    let chunk = Compiler::compile(source).expect("should compile");

    assert_eq!(chunk.constants.len(), 4);
    assert_eq!(chunk.constants[0], Value::Identifier("CurePeriod".into()));
    assert_eq!(chunk.constants[1], Value::Num(10));
    assert_eq!(chunk.constants[2], Value::Str("calendar_days".into()));
    assert_eq!(chunk.constants[3], Value::Identifier("Effective".into()));

    // [Constant,0, Constant,1, Constant,2, Constant,3, DefineTerm, Return]
    assert_eq!(chunk.code.len(), 10);
    assert_eq!(op(chunk.code[0]), OpCode::Constant);
    assert_eq!(chunk.code[1], 0);
    assert_eq!(op(chunk.code[2]), OpCode::Constant);
    assert_eq!(chunk.code[3], 1);
    assert_eq!(op(chunk.code[4]), OpCode::Constant);
    assert_eq!(chunk.code[5], 2);
    assert_eq!(op(chunk.code[6]), OpCode::Constant);
    assert_eq!(chunk.code[7], 3);
    assert_eq!(op(chunk.code[8]), OpCode::DefineTerm);
    assert_eq!(op(chunk.code[9]), OpCode::Return);
}

#[test]
fn compile_term_business_days_from_breach_of() {
    let source =
        r#"contract Foo { term CurePeriod = 10 business_days from breach_of(DeliverSoftware) }"#;
    let chunk = Compiler::compile(source).expect("should compile");

    assert_eq!(chunk.constants.len(), 4);
    assert_eq!(chunk.constants[0], Value::Identifier("CurePeriod".into()));
    assert_eq!(chunk.constants[1], Value::Num(10));
    assert_eq!(chunk.constants[2], Value::Str("business_days".into()));
    assert_eq!(
        chunk.constants[3],
        Value::Identifier("breach_of(DeliverSoftware)".into())
    );

    assert_eq!(chunk.code.len(), 10);
    assert_eq!(op(chunk.code[8]), OpCode::DefineTerm);
    assert_eq!(op(chunk.code[9]), OpCode::Return);
}

#[test]
fn compile_term_missing_from_reports_error() {
    let source = r#"contract Foo { term CurePeriod = 10 calendar_days Effective }"#;
    let result = Compiler::compile(source);
    assert!(result.is_err());

    let msg = result.unwrap_err().to_string();
    assert!(
        msg.contains("Expected 'from' after term duration"),
        "expected missing-from error, got: {}",
        msg
    );
}

// ── Block 10: Obligations ───────────────────────────────────────

#[test]
fn compile_obligation_all_fields_with_due_identifier() {
    let source = r#"contract Foo {
        obligation PayLicenseFee {
            party: licensee
            action: "Pay $50,000 license fee"
            due: AcceptancePeriod
            condition: satisfied(DeliverSoftware) and occurred(AcceptanceNotice)
        }
    }"#;
    let chunk = Compiler::compile(source).expect("should compile");

    assert_eq!(chunk.constants.len(), 6);
    assert_eq!(chunk.constants[0], Value::Identifier("PayLicenseFee".into()));
    assert_eq!(chunk.constants[1], Value::Identifier("licensee".into()));
    assert_eq!(
        chunk.constants[2],
        Value::Str("Pay $50,000 license fee".into())
    );
    assert_eq!(chunk.constants[3], Value::Identifier("AcceptancePeriod".into()));
    assert_eq!(chunk.constants[4], Value::Identifier("DeliverSoftware".into()));
    assert_eq!(chunk.constants[5], Value::Identifier("AcceptanceNotice".into()));

    // [Constant,0, BeginObligation, Constant,1, SetParty, Constant,2, SetAction,
    //  Constant,3, SetDue, Constant,4, ConditionSatisfied, Constant,5,
    //  ConditionOccurred, ConditionAnd, SetCondition, EndObligation, Return]
    assert_eq!(chunk.code.len(), 22);
    assert_eq!(op(chunk.code[0]), OpCode::Constant);
    assert_eq!(chunk.code[1], 0);
    assert_eq!(op(chunk.code[2]), OpCode::BeginObligation);
    assert_eq!(op(chunk.code[3]), OpCode::Constant);
    assert_eq!(chunk.code[4], 1);
    assert_eq!(op(chunk.code[5]), OpCode::SetParty);
    assert_eq!(op(chunk.code[6]), OpCode::Constant);
    assert_eq!(chunk.code[7], 2);
    assert_eq!(op(chunk.code[8]), OpCode::SetAction);
    assert_eq!(op(chunk.code[9]), OpCode::Constant);
    assert_eq!(chunk.code[10], 3);
    assert_eq!(op(chunk.code[11]), OpCode::SetDue);
    assert_eq!(op(chunk.code[12]), OpCode::Constant);
    assert_eq!(chunk.code[13], 4);
    assert_eq!(op(chunk.code[14]), OpCode::ConditionSatisfied);
    assert_eq!(op(chunk.code[15]), OpCode::Constant);
    assert_eq!(chunk.code[16], 5);
    assert_eq!(op(chunk.code[17]), OpCode::ConditionOccurred);
    assert_eq!(op(chunk.code[18]), OpCode::ConditionAnd);
    assert_eq!(op(chunk.code[19]), OpCode::SetCondition);
    assert_eq!(op(chunk.code[20]), OpCode::EndObligation);
    assert_eq!(op(chunk.code[21]), OpCode::Return);
}

#[test]
fn compile_obligation_inline_due_emits_set_due_with_raw_constant() {
    let source = r#"contract Foo {
        obligation PayLicenseFee {
            party: licensee
            action: "Pay fee"
            due: 15 calendar_days from AcceptanceNotice
            condition: occurred(AcceptanceNotice)
        }
    }"#;
    let chunk = Compiler::compile(source).expect("should compile");

    assert_eq!(
        chunk.constants[3],
        Value::Str("15 calendar_days from AcceptanceNotice".into())
    );
    assert_eq!(chunk.constants[4], Value::Identifier("AcceptanceNotice".into()));

    assert_eq!(chunk.code.len(), 18);
    assert_eq!(op(chunk.code[11]), OpCode::SetDue);
    assert_eq!(op(chunk.code[14]), OpCode::ConditionOccurred);
    assert_eq!(op(chunk.code[15]), OpCode::SetCondition);
    assert_eq!(op(chunk.code[16]), OpCode::EndObligation);
    assert_eq!(op(chunk.code[17]), OpCode::Return);
}

#[test]
fn compile_obligation_unknown_field_reports_error() {
    let source = r#"contract Foo {
        obligation Bad {
            foo: bar
        }
    }"#;
    let result = Compiler::compile(source);
    assert!(result.is_err());

    let msg = result.unwrap_err().to_string();
    assert!(
        msg.contains("Expected obligation field"),
        "expected obligation field error, got: {}",
        msg
    );
}

#[test]
fn compile_duplicate_obligation_name_reports_error() {
    let source = r#"contract Foo {
        obligation DeliverSoftware {
            party: seller
            action: "Deliver software"
            due: 10 calendar_days from Effective
        }
        obligation DeliverSoftware {
            party: seller
            action: "Deliver software again"
            due: 20 calendar_days from Effective
        }
    }"#;

    let result = Compiler::compile(source);
    assert!(result.is_err());
    let msg = result.unwrap_err().to_string();
    assert!(
        msg.contains("Duplicate obligation name 'DeliverSoftware'"),
        "expected duplicate-obligation error, got: {}",
        msg
    );
}

// ── Block 11: Remedies & Phases ─────────────────────────────────

#[test]
fn compile_remedy_with_direct_fields() {
    let source = r#"contract Foo {
        remedy LateFee on breach_of(PayLicenseFee) {
            party: licensee
            action: "Pay interest"
            due: CurePeriod
            condition: occurred(DefaultNotice)
        }
    }"#;
    let chunk = Compiler::compile(source).expect("should compile");

    assert_eq!(chunk.constants[0], Value::Identifier("LateFee".into()));
    assert_eq!(chunk.constants[1], Value::Identifier("PayLicenseFee".into()));
    assert_eq!(chunk.constants[2], Value::Identifier("licensee".into()));
    assert_eq!(chunk.constants[3], Value::Str("Pay interest".into()));
    assert_eq!(chunk.constants[4], Value::Identifier("CurePeriod".into()));
    assert_eq!(chunk.constants[5], Value::Identifier("DefaultNotice".into()));

    assert_eq!(chunk.code.len(), 20);
    assert_eq!(op(chunk.code[4]), OpCode::BeginRemedy);
    assert_eq!(op(chunk.code[7]), OpCode::SetParty);
    assert_eq!(op(chunk.code[10]), OpCode::SetAction);
    assert_eq!(op(chunk.code[13]), OpCode::SetDue);
    assert_eq!(op(chunk.code[16]), OpCode::ConditionOccurred);
    assert_eq!(op(chunk.code[17]), OpCode::SetCondition);
    assert_eq!(op(chunk.code[18]), OpCode::EndRemedy);
    assert_eq!(op(chunk.code[19]), OpCode::Return);
}

#[test]
fn compile_remedy_with_phases_emits_phase_opcodes() {
    let source = r#"contract Foo {
        remedy CureOrTerminate on breach_of(DeliverSoftware) {
            phase Cure {
                party: licensor
                action: "Deliver software in cure period"
                due: CurePeriod
                condition: after(Effective)
            }
            phase Terminate on breach_of(Cure) {
                action: "Terminate contract"
                condition: satisfied(Cure) and occurred(TerminationNotice)
            }
        }
    }"#;
    let chunk = Compiler::compile(source).expect("should compile");

    assert!(
        chunk
            .constants
            .contains(&Value::Identifier("breach_of(Cure)".into()))
    );

    let mut begin_phase = 0;
    let mut end_phase = 0;
    let mut begin_remedy = 0;
    let mut end_remedy = 0;
    let mut condition_and = 0;

    let mut i = 0;
    while i < chunk.code.len() {
        let op = op(chunk.code[i]);
        match op {
            OpCode::Constant => {
                i += 2;
                continue;
            }
            OpCode::BeginPhase => begin_phase += 1,
            OpCode::EndPhase => end_phase += 1,
            OpCode::BeginRemedy => begin_remedy += 1,
            OpCode::EndRemedy => end_remedy += 1,
            OpCode::ConditionAnd => condition_and += 1,
            _ => {}
        }
        i += 1;
    }

    assert_eq!(begin_remedy, 1);
    assert_eq!(end_remedy, 1);
    assert_eq!(begin_phase, 2);
    assert_eq!(end_phase, 2);
    assert_eq!(condition_and, 1);
    assert_eq!(
        op(*chunk.code.last().expect("code should not be empty")),
        OpCode::Return
    );
}

#[test]
fn compile_duplicate_party_role_reports_error() {
    let source = r#"contract Foo {
        parties {
            buyer: "Alice"
            buyer: "Alicia"
        }
    }"#;

    let result = Compiler::compile(source);
    assert!(result.is_err());
    let msg = result.unwrap_err().to_string();
    assert!(
        msg.contains("Duplicate party role 'buyer'"),
        "expected duplicate-party error, got: {}",
        msg
    );
}

#[test]
fn compile_duplicate_event_name_reports_error() {
    let source = r#"contract Foo {
        event Effective = date("2026-03-01")
        event Effective = date("2026-03-02")
    }"#;

    let result = Compiler::compile(source);
    assert!(result.is_err());
    let msg = result.unwrap_err().to_string();
    assert!(
        msg.contains("Duplicate event name 'Effective'"),
        "expected duplicate-event error, got: {}",
        msg
    );
}

#[test]
fn compile_duplicate_term_name_reports_error() {
    let source = r#"contract Foo {
        term DeliveryPeriod = 10 calendar_days from Effective
        term DeliveryPeriod = 20 calendar_days from Effective
    }"#;

    let result = Compiler::compile(source);
    assert!(result.is_err());
    let msg = result.unwrap_err().to_string();
    assert!(
        msg.contains("Duplicate term name 'DeliveryPeriod'"),
        "expected duplicate-term error, got: {}",
        msg
    );
}

#[test]
fn compile_duplicate_remedy_name_reports_error() {
    let source = r#"contract Foo {
        remedy LateFee on breach_of(PayLicenseFee) {
            action: "Pay interest"
        }
        remedy LateFee on breach_of(PayLicenseFee) {
            action: "Pay more interest"
        }
    }"#;

    let result = Compiler::compile(source);
    assert!(result.is_err());
    let msg = result.unwrap_err().to_string();
    assert!(
        msg.contains("Duplicate remedy name 'LateFee'"),
        "expected duplicate-remedy error, got: {}",
        msg
    );
}

#[test]
fn compile_duplicate_phase_name_reports_error() {
    let source = r#"contract Foo {
        remedy CureOrTerminate on breach_of(DeliverSoftware) {
            phase Cure {
                action: "first"
            }
            phase Cure {
                action: "second"
            }
        }
    }"#;

    let result = Compiler::compile(source);
    assert!(result.is_err());
    let msg = result.unwrap_err().to_string();
    assert!(
        msg.contains("Duplicate phase name 'Cure'"),
        "expected duplicate-phase error, got: {}",
        msg
    );
}

#[test]
fn compile_condition_mixed_and_or_emits_precedence_order() {
    let source = r#"contract Foo {
        obligation Pay {
            party: buyer
            action: "Pay fee"
            due: PaymentWindow
            condition: satisfied(DeliverSoftware) or occurred(AcceptanceNotice) and before(Cutoff)
        }
    }"#;

    let chunk = Compiler::compile(source).expect("should compile");
    let mut condition_ops = Vec::new();
    let mut i = 0;
    while i < chunk.code.len() {
        let op = op(chunk.code[i]);
        match op {
            OpCode::Constant => {
                i += 2;
                continue;
            }
            OpCode::ConditionSatisfied
            | OpCode::ConditionOccurred
            | OpCode::ConditionBefore
            | OpCode::ConditionAnd
            | OpCode::ConditionOr
            | OpCode::SetCondition => condition_ops.push(op),
            _ => {}
        }
        i += 1;
    }

    assert_eq!(
        condition_ops,
        vec![
            OpCode::ConditionSatisfied,
            OpCode::ConditionOccurred,
            OpCode::ConditionBefore,
            OpCode::ConditionAnd,
            OpCode::ConditionOr,
            OpCode::SetCondition,
        ],
        "and should bind tighter than or",
    );
}

#[test]
fn compile_condition_grouping_changes_opcode_order() {
    let source = r#"contract Foo {
        obligation Pay {
            party: buyer
            action: "Pay fee"
            due: PaymentWindow
            condition: (satisfied(DeliverSoftware) or occurred(AcceptanceNotice)) and before(Cutoff)
        }
    }"#;

    let chunk = Compiler::compile(source).expect("should compile");
    let mut condition_ops = Vec::new();
    let mut i = 0;
    while i < chunk.code.len() {
        let op = op(chunk.code[i]);
        match op {
            OpCode::Constant => {
                i += 2;
                continue;
            }
            OpCode::ConditionSatisfied
            | OpCode::ConditionOccurred
            | OpCode::ConditionBefore
            | OpCode::ConditionAnd
            | OpCode::ConditionOr
            | OpCode::SetCondition => condition_ops.push(op),
            _ => {}
        }
        i += 1;
    }

    assert_eq!(
        condition_ops,
        vec![
            OpCode::ConditionSatisfied,
            OpCode::ConditionOccurred,
            OpCode::ConditionOr,
            OpCode::ConditionBefore,
            OpCode::ConditionAnd,
            OpCode::SetCondition,
        ],
        "grouping should force or before and",
    );
}


fn compile_error_text(source: &str) -> String {
    match Compiler::compile(source) {
        Ok(_) => panic!("expected a compile error"),
        Err(e) => e.to_string(),
    }
}

#[test]
fn compile_grouped_condition_missing_paren_reports_error() {
    let msg = compile_error_text(
        r#"contract C { obligation O { condition: (after(E) } }"#,
    );
    assert!(
        msg.contains("Expected ')' after grouped condition expression"),
        "got: {}",
        msg
    );
}

#[test]
fn compile_condition_missing_operand_after_or_reports_atom_error() {
    let msg = compile_error_text(
        r#"contract C { obligation O { condition: after(E) or } }"#,
    );
    assert!(msg.contains("Expected condition expression: after(...)"), "got: {}", msg);
}

#[test]
fn compile_remedy_field_after_phases_reports_error() {
    let msg = compile_error_text(
        r#"contract C { remedy R on breach_of(O) { phase P1 { action: "x" } party: buyer } }"#,
    );
    assert!(msg.contains("Expected 'phase' or '}' in remedy body"), "got: {}", msg);
}

#[test]
fn compile_party_name_not_string_reports_error() {
    let msg = compile_error_text(r#"contract C { parties { buyer: 5 } }"#);
    assert!(msg.contains("Expected party name string"), "got: {}", msg);
}

#[test]
fn compile_reports_first_error_only() {
    let msg = compile_error_text(r#"contract C { parties { buyer "A" } event }"#);
    assert!(msg.contains("Expected ':' after party role"), "got: {}", msg);
    assert!(!msg.contains("event name"), "got: {}", msg);
}

#[test]
fn compile_error_reports_line_and_column() {
    let msg = compile_error_text("contract C {\n  parties { buyer: }\n}");
    assert!(msg.starts_with("[line 2, col "), "got: {}", msg);
    assert!(msg.contains("Compile error: Expected party name string"), "got: {}", msg);
}
