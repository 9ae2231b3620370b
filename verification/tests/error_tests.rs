use kontra::error::{KontraError, Span};

#[test]
fn span_fields() {
    let span = Span::new(5, 12, 40, 55);
    assert_eq!(span.line, 5);
    assert_eq!(span.col, 12);
    assert_eq!(span.start, 40);
    assert_eq!(span.end, 55);
}

#[test]
fn scan_error_display() {
    let err = KontraError::scan(Span::new(3, 7, 20, 25), "unterminated string");
    let msg = err.to_string();
    assert_eq!(msg, "[line 3, col 7] Scan error: unterminated string");
}

#[test]
fn compile_error_display() {
    let err = KontraError::compile(Span::new(10, 1, 100, 105), "expected '}'");
    let msg = err.to_string();
    assert_eq!(msg, "[line 10, col 1] Compile error: expected '}'");
}

#[test]
fn runtime_error_with_line_display() {
    let err = KontraError::runtime(Some(42), "stack underflow");
    let msg = err.to_string();
    assert_eq!(msg, "[line 42] Runtime error: stack underflow");
}

#[test]
fn runtime_error_without_line_display() {
    let err = KontraError::runtime(None, "unknown opcode");
    let msg = err.to_string();
    assert_eq!(msg, "Runtime error: unknown opcode");
}
