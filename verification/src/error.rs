//! Source locations and the unified error type of the language.

use vstd::prelude::*;
use crate::text::{append_str, decimal, decimal_string};

verus! {

/// Source location for error reporting.
#[derive(Debug, Clone, Copy, PartialEq, Eq, Structural)]
pub struct Span {
    pub line: usize,
    pub col: usize,
    /// Byte offset into the source (UTF-8) of the token's first byte.
    pub start: usize,
    /// Byte offset into the source (UTF-8) just past the token's last byte.
    pub end: usize,
}

impl Span {
    pub fn new(line: usize, col: usize, start: usize, end: usize) -> (res: Self)
        ensures
            res == (Span { line, col, start, end }),
    {
        Self { line, col, start, end }
    }
}

/// Unified error type for the language.
#[derive(Debug, Clone)]
pub enum KontraError {
    Scan { span: Span, message: String },
    Compile { span: Span, message: String },
    Runtime { line: Option<usize>, message: String },
}

/// The rendering of an error, as shown to users.
pub open spec fn error_text(e: KontraError) -> Seq<char> {
    match e {
        KontraError::Scan { span, message } => "[line "@ + decimal(span.line as nat) + ", col "@
            + decimal(span.col as nat) + "] Scan error: "@ + message@,
        KontraError::Compile { span, message } => "[line "@ + decimal(span.line as nat)
            + ", col "@ + decimal(span.col as nat) + "] Compile error: "@ + message@,
        KontraError::Runtime { line: Some(l), message } => "[line "@ + decimal(l as nat)
            + "] Runtime error: "@ + message@,
        KontraError::Runtime { line: None, message } => "Runtime error: "@ + message@,
    }
}

impl KontraError {
    pub fn scan(span: Span, msg: &str) -> (res: Self)
        ensures
            res matches KontraError::Scan { span: s, message } && s == span && message@ == msg@,
    {
        KontraError::Scan { span, message: String::from_str(msg) }
    }

    pub fn compile(span: Span, msg: &str) -> (res: Self)
        ensures
            res matches KontraError::Compile { span: s, message } && s == span && message@ == msg@,
    {
        KontraError::Compile { span, message: String::from_str(msg) }
    }

    pub fn runtime(line: Option<usize>, msg: &str) -> (res: Self)
        ensures
            res matches KontraError::Runtime { line: l, message } && l == line && message@ == msg@,
    {
        KontraError::Runtime { line, message: String::from_str(msg) }
    }

    /// Renders the error: `[line L, col C] Scan error: M`,
    /// `[line L, col C] Compile error: M`, `[line L] Runtime error: M`, or
    /// `Runtime error: M` when no line is known.
    pub fn to_string(&self) -> (res: String)
        ensures
            res@ == error_text(*self),
    {
        match self {
            KontraError::Scan { span, message } => {
                let mut s = String::from_str("[line ");
                let l = decimal_string(span.line as u64);
                append_str(&mut s, l.as_str());
                append_str(&mut s, ", col ");
                let c = decimal_string(span.col as u64);
                append_str(&mut s, c.as_str());
                append_str(&mut s, "] Scan error: ");
                append_str(&mut s, message.as_str());
                s
            },
            KontraError::Compile { span, message } => {
                let mut s = String::from_str("[line ");
                let l = decimal_string(span.line as u64);
                append_str(&mut s, l.as_str());
                append_str(&mut s, ", col ");
                let c = decimal_string(span.col as u64);
                append_str(&mut s, c.as_str());
                append_str(&mut s, "] Compile error: ");
                append_str(&mut s, message.as_str());
                s
            },
            KontraError::Runtime { line: Some(line), message } => {
                let mut s = String::from_str("[line ");
                let l = decimal_string(*line as u64);
                append_str(&mut s, l.as_str());
                append_str(&mut s, "] Runtime error: ");
                append_str(&mut s, message.as_str());
                s
            },
            KontraError::Runtime { line: None, message } => {
                let mut s = String::from_str("Runtime error: ");
                append_str(&mut s, message.as_str());
                s
            },
        }
    }
}

} // verus!
