use kontra::scanner::Scanner;
use kontra::token::{Token, TokenType};

/// Collects all tokens (including Eof) from a source string.
fn scan_all(source: &str) -> Vec<Token> {
    let mut scanner = Scanner::new(source);
    let mut tokens = Vec::new();
    loop {
        let tok = scanner.scan_token();
        let is_eof = tok.token_type == TokenType::Eof;
        tokens.push(tok);
        if is_eof {
            break;
        }
    }
    tokens
}

#[test]
fn scan_small_contract_snippet() {
    let source = r#"contract Foo {
    parties {
        buyer: "Alice"
    }
    event Effective = date("2026-03-01")
    obligation Pay {
        party: buyer
        action: "Pay 100"
        due: 30 calendar_days from Effective
    }
}"#;
    let tokens = scan_all(source);
    let types: Vec<&TokenType> = tokens.iter().map(|t| &t.token_type).collect();

    assert_eq!(
        types,
        vec![
            &TokenType::Contract,
            &TokenType::Identifier,
            &TokenType::LeftBrace,
            &TokenType::Parties,
            &TokenType::LeftBrace,
            &TokenType::Identifier,
            &TokenType::Colon,
            &TokenType::StringLiteral,
            &TokenType::RightBrace,
            &TokenType::Event,
            &TokenType::Identifier,
            &TokenType::Equal,
            &TokenType::Date,
            &TokenType::LeftParen,
            &TokenType::StringLiteral,
            &TokenType::RightParen,
            &TokenType::Obligation,
            &TokenType::Identifier,
            &TokenType::LeftBrace,
            &TokenType::Party,
            &TokenType::Colon,
            &TokenType::Identifier,
            &TokenType::Action,
            &TokenType::Colon,
            &TokenType::StringLiteral,
            &TokenType::Due,
            &TokenType::Colon,
            &TokenType::Number,
            &TokenType::CalendarDays,
            &TokenType::From,
            &TokenType::Identifier,
            &TokenType::RightBrace,
            &TokenType::RightBrace,
            &TokenType::Eof,
        ]
    );

    assert_eq!(tokens[1].lexeme, "Foo");
    assert_eq!(tokens[7].lexeme, "\"Alice\"");
    assert_eq!(tokens[27].lexeme, "30");
}

#[test]
fn line_comments_are_ignored() {
    let source = "contract Test {\n-- this is a comment\nparties {\n}\n}";
    let tokens = scan_all(source);
    let types: Vec<&TokenType> = tokens.iter().map(|t| &t.token_type).collect();

    assert_eq!(
        types,
        vec![
            &TokenType::Contract,
            &TokenType::Identifier,
            &TokenType::LeftBrace,
            &TokenType::Parties,
            &TokenType::LeftBrace,
            &TokenType::RightBrace,
            &TokenType::RightBrace,
            &TokenType::Eof,
        ]
    );
}

#[test]
fn unterminated_string_produces_error_token() {
    let source = r#"contract "oops"#;
    let tokens = scan_all(source);

    let last_real = &tokens[tokens.len() - 2];
    assert_eq!(last_real.token_type, TokenType::Error);
    assert_eq!(last_real.lexeme, "Unterminated string");
}

#[test]
fn spans_record_line_and_column() {
    let tokens = scan_all("contract\n  Foo");
    assert_eq!(tokens[0].span.line, 1);
    assert_eq!(tokens[0].span.col, 1);
    assert_eq!(tokens[1].span.line, 2);
    assert_eq!(tokens[1].span.col, 3);
    assert_eq!(tokens[1].span.start, 11);
    assert_eq!(tokens[1].span.end, 14);
}

#[test]
fn eof_repeats_at_end_of_input() {
    let mut scanner = Scanner::new("");
    assert_eq!(scanner.scan_token().token_type, TokenType::Eof);
    assert_eq!(scanner.scan_token().token_type, TokenType::Eof);
}

#[test]
fn spans_are_byte_offsets_into_the_source() {
    let source = "\"é\" x";
    let tokens = scan_all(source);
    assert_eq!(tokens[0].token_type, TokenType::StringLiteral);
    assert_eq!(tokens[0].span.start, 0);
    assert_eq!(tokens[0].span.end, 4);
    assert_eq!(&source[tokens[0].span.start..tokens[0].span.end], "\"é\"");
    assert_eq!(tokens[1].token_type, TokenType::Identifier);
    assert_eq!(tokens[1].span.start, 5);
    assert_eq!(tokens[1].span.end, 6);
    assert_eq!(&source[tokens[1].span.start..tokens[1].span.end], "x");
    assert_eq!(tokens[1].span.col, 5);
    assert_eq!(tokens[2].token_type, TokenType::Eof);
    assert_eq!(tokens[2].span.start, source.len());
}

#[test]
fn a_token_spanning_lines_keeps_its_starting_column() {
    let source = "x \"a\nbc\" y";
    let tokens = scan_all(source);
    assert_eq!(tokens[1].token_type, TokenType::StringLiteral);
    assert_eq!(tokens[1].span.col, 3);
    assert_eq!(tokens[1].span.line, 2);
    assert_eq!(tokens[2].token_type, TokenType::Identifier);
    assert_eq!(tokens[2].span.col, 5);
    assert_eq!(tokens[2].span.line, 2);
}
