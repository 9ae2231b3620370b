use kontra::chunk::{Chunk, OpCode, Value};
use kontra::compiler::Compiler;
use kontra::types::{ConditionExpr, DueDef, Duration, DurationUnit};
use kontra::vm::VM;

#[test]
fn interpret_minimal_contract_builds_party_and_obligation() {
    let source = r#"contract Foo {
        parties { seller: "Acme Corp" }
        event Effective = date("2026-03-01")
        term DeliveryPeriod = 30 calendar_days from Effective
        obligation DeliverSoftware {
            party: seller
            action: "Deliver software per schedule"
            due: DeliveryPeriod
            condition: after(Effective)
        }
    }"#;

    let chunk = Compiler::compile(source).expect("compile should succeed");
    let contract = VM::interpret(chunk).expect("vm interpret should succeed");

    let seller = contract
        .parties
        .get("seller")
        .expect("seller party should exist");
    assert_eq!(seller.name, "Acme Corp");

    let obligation = contract
        .obligations
        .get("DeliverSoftware")
        .expect("obligation should exist");
    assert_eq!(obligation.party_role.as_deref(), Some("seller"));
    assert_eq!(
        obligation.action.as_deref(),
        Some("Deliver software per schedule")
    );
    assert_eq!(
        obligation.due,
        Some(DueDef::TermRef("DeliveryPeriod".to_string()))
    );
    assert_eq!(
        obligation.condition,
        Some(ConditionExpr::After("Effective".to_string()))
    );
}

#[test]
fn interpret_condition_and_builds_condition_tree() {
    let source = r#"contract Foo {
        obligation Pay {
            party: buyer
            action: "Pay fee"
            due: 15 calendar_days from AcceptanceNotice
            condition: satisfied(DeliverSoftware) and occurred(AcceptanceNotice)
        }
    }"#;

    let chunk = Compiler::compile(source).expect("compile should succeed");
    let contract = VM::interpret(chunk).expect("vm interpret should succeed");

    let obligation = contract.obligations.get("Pay").expect("obligation should exist");
    assert_eq!(
        obligation.due,
        Some(DueDef::InlineDuration {
            duration: Duration {
                amount: 15,
                unit: DurationUnit::CalendarDays,
            },
            anchor: "AcceptanceNotice".to_string(),
        })
    );
    assert_eq!(
        obligation.condition,
        Some(ConditionExpr::And(
            Box::new(ConditionExpr::Satisfied("DeliverSoftware".to_string())),
            Box::new(ConditionExpr::Occurred("AcceptanceNotice".to_string())),
        ))
    );
}

#[test]
fn interpret_condition_grouping_with_or_and_before_builds_tree() {
    let source = r#"contract Foo {
        obligation Pay {
            party: buyer
            action: "Pay fee"
            due: 15 calendar_days from AcceptanceNotice
            condition: (satisfied(DeliverSoftware) or occurred(AcceptanceNotice)) and before(PaymentDeadline)
        }
    }"#;

    let chunk = Compiler::compile(source).expect("compile should succeed");
    let contract = VM::interpret(chunk).expect("vm interpret should succeed");

    let obligation = contract.obligations.get("Pay").expect("obligation should exist");
    assert_eq!(
        obligation.condition,
        Some(ConditionExpr::And(
            Box::new(ConditionExpr::Or(
                Box::new(ConditionExpr::Satisfied("DeliverSoftware".to_string())),
                Box::new(ConditionExpr::Occurred("AcceptanceNotice".to_string())),
            )),
            Box::new(ConditionExpr::Before("PaymentDeadline".to_string())),
        ))
    );
}

#[test]
fn interpret_remedy_with_phase_builds_nested_structure() {
    let source = r#"contract Foo {
        remedy CureOrTerminate on breach_of(DeliverSoftware) {
            phase Cure {
                party: licensor
                action: "Deliver software in cure period"
                due: CurePeriod
                condition: after(Effective)
            }
        }
    }"#;

    let chunk = Compiler::compile(source).expect("compile should succeed");
    let contract = VM::interpret(chunk).expect("vm interpret should succeed");

    let remedy = contract
        .remedies
        .get("CureOrTerminate")
        .expect("remedy should exist");
    assert_eq!(remedy.breach_target, "DeliverSoftware");
    assert_eq!(remedy.phases.len(), 1);
    assert_eq!(remedy.phases[0].name, "Cure");
    assert_eq!(remedy.phases[0].party_role.as_deref(), Some("licensor"));
}

#[test]
fn runtime_error_includes_source_line_for_stack_underflow() {
    let mut chunk = Chunk::new();
    chunk.write(u8::from(OpCode::DefineParty), 42);
    chunk.write(u8::from(OpCode::Return), 42);

    let result = VM::interpret(chunk);
    assert!(result.is_err());
    let msg = result.unwrap_err().to_string();
    assert!(
        msg.contains("[line 42] Runtime error"),
        "expected runtime error with source line, got: {}",
        msg
    );
    assert!(
        msg.contains("DefineParty expects party name string on stack")
            || msg.contains("Stack underflow"),
        "expected actionable runtime error context, got: {}",
        msg
    );
}

#[test]
fn vm_rejects_duplicate_party_roles_even_if_bytecode_repeats_them() {
    let mut chunk = Chunk::new();
    let idx_role_1 = chunk.add_constant(Value::Identifier("buyer".into()));
    let idx_name_1 = chunk.add_constant(Value::Str("Alice".into()));
    let idx_role_2 = chunk.add_constant(Value::Identifier("buyer".into()));
    let idx_name_2 = chunk.add_constant(Value::Str("Alicia".into()));

    chunk.write(u8::from(OpCode::Constant), 7);
    chunk.write(idx_role_1, 7);
    chunk.write(u8::from(OpCode::Constant), 7);
    chunk.write(idx_name_1, 7);
    chunk.write(u8::from(OpCode::DefineParty), 7);

    chunk.write(u8::from(OpCode::Constant), 8);
    chunk.write(idx_role_2, 8);
    chunk.write(u8::from(OpCode::Constant), 8);
    chunk.write(idx_name_2, 8);
    chunk.write(u8::from(OpCode::DefineParty), 8);
    chunk.write(u8::from(OpCode::Return), 8);

    let result = VM::interpret(chunk);
    assert!(result.is_err());
    let msg = result.unwrap_err().to_string();
    assert!(
        msg.contains("Duplicate party role 'buyer'"),
        "expected duplicate-party runtime error, got: {}",
        msg
    );
    assert!(
        msg.contains("[line 8] Runtime error"),
        "expected duplicate to report bytecode line, got: {}",
        msg
    );
}

