use kontra::chunk::{Chunk, OpCode, Value};

#[test]
fn chunk_write_and_read_back() {
    let mut chunk = Chunk::new();
    chunk.write(u8::from(OpCode::Return), 1);

    assert_eq!(chunk.code.len(), 1);
    assert_eq!(OpCode::from_byte(chunk.code[0]), Some(OpCode::Return));
    assert_eq!(chunk.lines[0], 1);
}

#[test]
fn add_constant_returns_index() {
    let mut chunk = Chunk::new();
    let idx0 = chunk.add_constant(Value::Str("hello".into()));
    let idx1 = chunk.add_constant(Value::Num(42));

    assert_eq!(idx0, 0);
    assert_eq!(idx1, 1);
    assert_eq!(chunk.constants[0], Value::Str("hello".into()));
    assert_eq!(chunk.constants[1], Value::Num(42));
}

#[test]
fn opcode_u8_roundtrip() {
    let ops = [
        OpCode::Constant,
        OpCode::DefineParty,
        OpCode::DefineEvent,
        OpCode::DefineTerm,
        OpCode::BeginObligation,
        OpCode::SetParty,
        OpCode::SetAction,
        OpCode::SetDue,
        OpCode::ConditionAfter,
        OpCode::ConditionSatisfied,
        OpCode::ConditionOccurred,
        OpCode::ConditionAnd,
        OpCode::SetCondition,
        OpCode::EndObligation,
        OpCode::BeginRemedy,
        OpCode::EndRemedy,
        OpCode::BeginPhase,
        OpCode::EndPhase,
        OpCode::Return,
        OpCode::ConditionBefore,
        OpCode::ConditionOr,
    ];
    for op in ops {
        let byte: u8 = op.into();
        let back = OpCode::from_byte(byte).expect("every opcode byte decodes");
        assert_eq!(back, op);
        assert_eq!(OpCode::from_u8(byte), op);
        let again: u8 = OpCode::from_u8(byte).into();
        assert_eq!(again, byte);
    }
}

#[test]
fn disassemble_constant_and_return() {
    let mut chunk = Chunk::new();

    let idx = chunk.add_constant(Value::Str("Alice".into()));
    chunk.write(u8::from(OpCode::Constant), 1);
    chunk.write(idx, 1);

    let idx2 = chunk.add_constant(Value::Num(30));
    chunk.write(u8::from(OpCode::Constant), 2);
    chunk.write(idx2, 2);

    chunk.write(u8::from(OpCode::DefineParty), 2);
    chunk.write(u8::from(OpCode::Return), 3);

    let output = chunk.disassemble_to_string("test");

    assert!(output.contains("== test =="));
    assert!(output.contains("Constant"));
    assert!(output.contains("'\"Alice\"'"));
    assert!(output.contains("'30'"));
    assert!(output.contains("DefineParty"));
    assert!(output.contains("Return"));

    // second Constant and DefineParty share line 2, so | should appear
    assert!(output.contains("   | "));
}

#[test]
fn bytes_past_the_last_opcode_do_not_decode() {
    assert_eq!(OpCode::from_byte(21), None);
    assert_eq!(OpCode::from_byte(255), None);
    assert_eq!(OpCode::Return.to_byte(), 18);
    assert_eq!(OpCode::ConditionOr.name(), "ConditionOr");
}

#[test]
fn value_text_forms() {
    assert_eq!(Value::Str("x".into()).to_string(), "\"x\"");
    assert_eq!(Value::Num(7).to_string(), "7");
    assert_eq!(Value::Identifier("Pay".into()).to_string(), "Pay");
}
