//! Tokens produced by the scanner.

use vstd::prelude::*;
use crate::error::Span;

verus! {

#[derive(Debug, Clone, Copy, PartialEq, Eq, Structural)]
pub enum TokenType {
    // Keywords
    Contract,
    Parties,
    Event,
    Term,
    Obligation,
    Remedy,
    Phase,
    Party,
    Action,
    Due,
    Condition,
    Effect,
    From,
    On,
    And,
    Or,
    After,
    Before,
    Satisfied,
    BreachOf,
    Occurred,
    TriggeredBy,
    Date,
    CalendarDays,
    BusinessDays,
    Terminate,
    Recurring,
    Until,
    // Literals
    StringLiteral,
    Number,
    Identifier,
    // Symbols
    LeftBrace,
    RightBrace,
    LeftParen,
    RightParen,
    Colon,
    Equal,
    Comma,
    Dot,
    // Sentinels
    Eof,
    Error,
}

#[derive(Debug, PartialEq)]
pub struct Token {
    pub token_type: TokenType,
    /// The source text of the token; for an `Error` token, the error message.
    pub lexeme: String,
    pub span: Span,
}

impl Clone for Token {
    fn clone(&self) -> (res: Self)
        ensures
            res.token_type == self.token_type,
            res.lexeme@ == self.lexeme@,
            res.span == self.span,
    {
        Token { token_type: self.token_type, lexeme: self.lexeme.clone(), span: self.span }
    }
}

} // verus!
