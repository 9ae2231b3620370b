//! The grammar of the contract language and its compilation to bytecode,
//! stated over the scanner's tokens.
//!
//! The compilation reads the source token by token, as the compiler does,
//! and stops at the first error. A state holds the scanner's position, the
//! current and previous tokens, the code emitted so far, the names declared
//! so far, and the first error, once there is one; every step leaves a state
//! with an error unchanged.

use vstd::prelude::*;
use crate::chunk::{ChunkView, OpCode, ValueView, opcode_byte};
use crate::error::Span;
use crate::scanner::{ScanStep, scan_step};
use crate::text::{all_digits, saturating_digits_value};
use crate::token::TokenType;

verus! {

/// A token as the compilation sees it.
pub struct TokV {
    pub tt: TokenType,
    pub lexeme: Seq<char>,
    pub span: Span,
}

pub open spec fn tok_of(s: ScanStep) -> TokV {
    TokV {
        tt: s.token_type,
        lexeme: s.lexeme,
        span: Span { line: s.tok_line as usize, col: s.tok_col as usize, start: s.tok_start as usize, end: s.tok_end as usize },
    }
}

/// The token that stands for "no token yet".
pub open spec fn no_token() -> TokV {
    TokV { tt: TokenType::Eof, lexeme: Seq::empty(), span: Span { line: 0, col: 0, start: 0, end: 0 } }
}

/// A state of the compilation.
pub struct CState {
    pub pos: int,
    pub line: int,
    pub col: int,
    pub cur: TokV,
    pub prev: TokV,
    pub code: Seq<u8>,
    pub lines: Seq<usize>,
    pub consts: Seq<ValueView>,
    pub parties: Seq<Seq<char>>,
    pub events: Seq<Seq<char>>,
    pub terms: Seq<Seq<char>>,
    pub obligations: Seq<Seq<char>>,
    pub remedies: Seq<Seq<char>>,
    pub err: Option<(Span, Seq<char>)>,
}

/// How much input is left: twice the unread characters, plus one while the
/// current token is not the end of input.
pub open spec fn measure(src: Seq<char>, st: CState) -> int {
    (if st.pos <= src.len() {
        2 * (src.len() - st.pos)
    } else {
        0int
    }) + if st.cur.tt == TokenType::Eof {
        0int
    } else {
        1int
    }
}

/// The first error, reported at `span` with `msg`.
pub open spec fn fail(st: CState, span: Span, msg: Seq<char>) -> CState {
    if st.err is Some {
        st
    } else {
        CState { err: Some((span, msg)), ..st }
    }
}

/// Moves to the next token; a token the scanner refuses is an error, its
/// message the token's text.
#[verifier::opaque]
pub open spec fn advance(src: Seq<char>, st: CState) -> CState {
    if st.err is Some {
        st
    } else {
        let s = scan_step(src, st.pos, st.line, st.col);
        let next = CState { pos: s.current, line: s.line, col: s.col, prev: st.cur, cur: tok_of(s), ..st };
        if s.token_type == TokenType::Error {
            fail(next, tok_of(s).span, s.lexeme)
        } else {
            next
        }
    }
}

/// Moves past a token of type `tt`; any other token is the error `msg`.
pub open spec fn consume(src: Seq<char>, st: CState, tt: TokenType, msg: Seq<char>) -> CState {
    if st.err is Some {
        st
    } else if st.cur.tt == tt {
        advance(src, st)
    } else {
        fail(st, st.cur.span, msg)
    }
}

/// Moves past the current token when it has type `tt`.
pub open spec fn skip(src: Seq<char>, st: CState, tt: TokenType) -> CState {
    if st.err is Some {
        st
    } else if st.cur.tt == tt {
        advance(src, st)
    } else {
        st
    }
}

/// Appends a code byte, from the line of the previous token.
pub open spec fn emit(st: CState, b: u8) -> CState {
    if st.err is Some {
        st
    } else {
        CState { code: st.code.push(b), lines: st.lines.push(st.prev.span.line), ..st }
    }
}

pub open spec fn emit_op(st: CState, op: OpCode) -> CState {
    emit(st, opcode_byte(op))
}

/// Adds a constant and emits `Constant` with its index (modulo 256).
pub open spec fn emit_const(st: CState, v: ValueView) -> CState {
    if st.err is Some {
        st
    } else {
        let idx = (st.consts.len() % 256) as u8;
        let s1 = CState { consts: st.consts.push(v), ..st };
        emit(emit(s1, opcode_byte(OpCode::Constant)), idx)
    }
}

/// The text between the first and the last character.
pub open spec fn unquote(raw: Seq<char>) -> Seq<char> {
    if raw.len() >= 2 {
        raw.subrange(1, raw.len() - 1)
    } else {
        Seq::empty()
    }
}

/// The number a token of digits writes (saturating), if it is one.
pub open spec fn number_of(s: Seq<char>) -> Option<u64> {
    if s.len() > 0 && all_digits(s) {
        Some(saturating_digits_value(s))
    } else {
        None
    }
}

pub open spec fn duplicate(kind: Seq<char>, name: Seq<char>) -> Seq<char> {
    "Duplicate "@ + kind + " '"@ + name + "'"@
}

/// `names` with `name` declared: a name declared before is the error
/// `Duplicate <kind> '<name>'`, at the previous token.
pub open spec fn declared(st: CState, names: Seq<Seq<char>>, name: Seq<char>, kind: Seq<char>) -> (CState, Seq<Seq<char>>) {
    if names.contains(name) {
        (fail(st, st.prev.span, duplicate(kind, name)), names)
    } else {
        (st, names.push(name))
    }
}

pub open spec fn breach_of(name: Seq<char>) -> Seq<char> {
    "breach_of("@ + name + ")"@
}

// ---------------------------------------------------------------------------
// Declarations
// ---------------------------------------------------------------------------

/// `role: "name"`: the role, the name, `DefineParty`.
#[verifier::opaque]
pub open spec fn party_pair(src: Seq<char>, st: CState) -> CState {
    if st.err is Some {
        st
    } else {
        let s1 = consume(src, st, TokenType::Identifier, "Expected party role"@);
        let role = s1.prev.lexeme;
        let (s2, names) = declared(s1, s1.parties, role, "party role"@);
        let s3 = CState { parties: names, ..s2 };
        let s4 = consume(src, s3, TokenType::Colon, "Expected ':' after party role"@);
        let s5 = consume(src, s4, TokenType::StringLiteral, "Expected party name string"@);
        let name = unquote(s5.prev.lexeme);
        emit_op(
            emit_const(emit_const(s5, ValueView::Identifier(role)), ValueView::Str(name)),
            OpCode::DefineParty,
        )
    }
}

/// The pairs of a `parties` block, up to its `}`.
#[verifier::opaque]
pub open spec fn party_pairs(src: Seq<char>, st: CState) -> CState
    decreases measure(src, st),
{
    if st.err is Some || st.cur.tt == TokenType::RightBrace || st.cur.tt == TokenType::Eof {
        st
    } else {
        let s1 = party_pair(src, st);
        if 0 <= measure(src, s1) < measure(src, st) {
            party_pairs(src, s1)
        } else {
            s1
        }
    }
}

/// `parties { pairs }`.
#[verifier::opaque]
pub open spec fn parties_decl(src: Seq<char>, st: CState) -> CState {
    if st.err is Some {
        st
    } else {
        let s1 = consume(src, st, TokenType::Parties, "Expected 'parties'"@);
        let s2 = consume(src, s1, TokenType::LeftBrace, "Expected '{' after 'parties'"@);
        let s3 = party_pairs(src, s2);
        consume(src, s3, TokenType::RightBrace, "Expected '}' after parties block"@)
    }
}

/// `event NAME = date("…")` or `event NAME = triggered_by(ROLE)`: the name,
/// the date string or role, `DefineEvent`.
#[verifier::opaque]
pub open spec fn event_decl(src: Seq<char>, st: CState) -> CState {
    if st.err is Some {
        st
    } else {
        let s1 = consume(src, st, TokenType::Event, "Expected 'event'"@);
        let s2 = consume(src, s1, TokenType::Identifier, "Expected event name"@);
        let name = s2.prev.lexeme;
        let (s3, names) = declared(s2, s2.events, name, "event name"@);
        let s4 = consume(src, CState { events: names, ..s3 }, TokenType::Equal, "Expected '=' after event name"@);
        if s4.cur.tt == TokenType::Date {
            let s5 = advance(src, s4);
            let s6 = consume(src, s5, TokenType::LeftParen, "Expected '(' after 'date'"@);
            let s7 = consume(src, s6, TokenType::StringLiteral, "Expected date string inside date(...)"@);
            let date = unquote(s7.prev.lexeme);
            let s8 = consume(src, s7, TokenType::RightParen, "Expected ')' after date string"@);
            emit_op(emit_const(emit_const(s8, ValueView::Identifier(name)), ValueView::Str(date)), OpCode::DefineEvent)
        } else if s4.cur.tt == TokenType::TriggeredBy {
            let s5 = advance(src, s4);
            let s6 = consume(src, s5, TokenType::LeftParen, "Expected '(' after 'triggered_by'"@);
            let s7 = consume(src, s6, TokenType::Identifier, "Expected party identifier inside triggered_by(...)"@);
            let role = s7.prev.lexeme;
            let s8 = consume(src, s7, TokenType::RightParen, "Expected ')' after triggered_by argument"@);
            emit_op(emit_const(emit_const(s8, ValueView::Identifier(name)), ValueView::Identifier(role)), OpCode::DefineEvent)
        } else {
            fail(s4, s4.cur.span, "Expected event expression: date(\"...\") or triggered_by(identifier)"@)
        }
    }
}

/// The anchor of a term: an identifier, or `breach_of(NAME)` as the text
/// `breach_of(NAME)`.
#[verifier::opaque]
pub open spec fn term_anchor(src: Seq<char>, st: CState) -> (CState, Seq<char>) {
    if st.err is Some {
        (st, Seq::empty())
    } else {
        if st.cur.tt == TokenType::Identifier {
            let s1 = advance(src, st);
            (s1, s1.prev.lexeme)
        } else if st.cur.tt == TokenType::BreachOf {
            let s1 = advance(src, st);
            let s2 = consume(src, s1, TokenType::LeftParen, "Expected '(' after 'breach_of'"@);
            let s3 = consume(src, s2, TokenType::Identifier, "Expected identifier inside breach_of(...)"@);
            let target = s3.prev.lexeme;
            let s4 = consume(src, s3, TokenType::RightParen, "Expected ')' after breach_of argument"@);
            (s4, breach_of(target))
        } else {
            (fail(st, st.cur.span, "Expected term anchor identifier or breach_of(identifier)"@), Seq::empty())
        }
    }
}

/// The unit of a duration, `calendar_days` or `business_days`.
#[verifier::opaque]
pub open spec fn duration_unit(src: Seq<char>, st: CState) -> (CState, Seq<char>) {
    if st.err is Some {
        (st, Seq::empty())
    } else {
        if st.cur.tt == TokenType::CalendarDays {
            (advance(src, st), "calendar_days"@)
        } else if st.cur.tt == TokenType::BusinessDays {
            (advance(src, st), "business_days"@)
        } else {
            (fail(st, st.cur.span, "Expected duration unit: 'calendar_days' or 'business_days'"@), Seq::empty())
        }
    }
}

/// `term NAME = N unit from ANCHOR`: the name, the amount, the unit, the
/// anchor, `DefineTerm`.
#[verifier::opaque]
pub open spec fn term_decl(src: Seq<char>, st: CState) -> CState {
    if st.err is Some {
        st
    } else {
        let s1 = consume(src, st, TokenType::Term, "Expected 'term'"@);
        let s2 = consume(src, s1, TokenType::Identifier, "Expected term name"@);
        let name = s2.prev.lexeme;
        let (s3, names) = declared(s2, s2.terms, name, "term name"@);
        let s4 = consume(src, CState { terms: names, ..s3 }, TokenType::Equal, "Expected '=' after term name"@);
        let s5 = consume(src, s4, TokenType::Number, "Expected duration number"@);
        match number_of(s5.prev.lexeme) {
            None => fail(s5, s5.prev.span, "Invalid duration number"@),
            Some(amount) => {
                let (s6, unit) = duration_unit(src, s5);
                let s7 = consume(src, s6, TokenType::From, "Expected 'from' after term duration"@);
                let (s8, anchor) = term_anchor(src, s7);
                let s9 = emit_const(emit_const(s8, ValueView::Identifier(name)), ValueView::Num(amount));
                emit_op(emit_const(emit_const(s9, ValueView::Str(unit)), ValueView::Identifier(anchor)), OpCode::DefineTerm)
            },
        }
    }
}

// ---------------------------------------------------------------------------
// Obligation fields and conditions
// ---------------------------------------------------------------------------

/// `party: ROLE`.
#[verifier::opaque]
pub open spec fn party_field(src: Seq<char>, st: CState) -> CState {
    if st.err is Some {
        st
    } else {
        let s1 = consume(src, st, TokenType::Party, "Expected 'party'"@);
        let s2 = consume(src, s1, TokenType::Colon, "Expected ':' after 'party'"@);
        let s3 = consume(src, s2, TokenType::Identifier, "Expected party role identifier"@);
        emit_op(emit_const(s3, ValueView::Identifier(s3.prev.lexeme)), OpCode::SetParty)
    }
}

/// `action: "TEXT"`.
#[verifier::opaque]
pub open spec fn action_field(src: Seq<char>, st: CState) -> CState {
    if st.err is Some {
        st
    } else {
        let s1 = consume(src, st, TokenType::Action, "Expected 'action'"@);
        let s2 = consume(src, s1, TokenType::Colon, "Expected ':' after 'action'"@);
        let s3 = consume(src, s2, TokenType::StringLiteral, "Expected action string"@);
        emit_op(emit_const(s3, ValueView::Str(unquote(s3.prev.lexeme))), OpCode::SetAction)
    }
}

/// The inline due `N unit from ANCHOR`, after its number: the string
/// `"N unit from ANCHOR"`.
#[verifier::opaque]
pub open spec fn inline_due(src: Seq<char>, st: CState) -> CState {
    let amount = st.prev.lexeme;
    let (s1, unit) = duration_unit(src, st);
    if s1.err is Some {
        s1
    } else {
        let s2 = consume(src, s1, TokenType::From, "Expected 'from' in inline due expression"@);
        let s3 = consume(src, s2, TokenType::Identifier, "Expected anchor identifier after 'from' in due expression"@);
        let raw = amount + " "@ + unit + " from "@ + s3.prev.lexeme;
        emit_op(emit_const(s3, ValueView::Str(raw)), OpCode::SetDue)
    }
}

/// `due: TERM` or `due: N unit from ANCHOR`.
#[verifier::opaque]
pub open spec fn due_field(src: Seq<char>, st: CState) -> CState {
    if st.err is Some {
        st
    } else {
        let s1 = consume(src, st, TokenType::Due, "Expected 'due'"@);
        let s2 = consume(src, s1, TokenType::Colon, "Expected ':' after 'due'"@);
        if s2.cur.tt == TokenType::Identifier {
            let s3 = advance(src, s2);
            emit_op(emit_const(s3, ValueView::Identifier(s3.prev.lexeme)), OpCode::SetDue)
        } else if s2.cur.tt == TokenType::Number {
            inline_due(src, advance(src, s2))
        } else {
            fail(s2, s2.cur.span, "Expected due value: term identifier or inline 'NUMBER unit from IDENTIFIER'"@)
        }
    }
}

/// An atom `KIND(ARG)`: the argument, then the atom's opcode.
#[verifier::opaque]
pub open spec fn atom_with(
    src: Seq<char>,
    st: CState,
    open_msg: Seq<char>,
    arg_msg: Seq<char>,
    close_msg: Seq<char>,
    op: OpCode,
) -> CState {
    if st.err is Some {
        st
    } else {
        let s1 = advance(src, st);
        let s2 = consume(src, s1, TokenType::LeftParen, open_msg);
        let s3 = consume(src, s2, TokenType::Identifier, arg_msg);
        let arg = s3.prev.lexeme;
        let s4 = consume(src, s3, TokenType::RightParen, close_msg);
        emit_op(emit_const(s4, ValueView::Identifier(arg)), op)
    }
}

/// `after(E)`, `before(E)`, `satisfied(X)` or `occurred(E)`.
#[verifier::opaque]
pub open spec fn cond_atom(src: Seq<char>, st: CState) -> CState {
    if st.err is Some {
        st
    } else if st.cur.tt == TokenType::After {
        atom_with(
            src,
            st,
            "Expected '(' after 'after'"@,
            "Expected identifier inside after(...)"@,
            "Expected ')' after after(...) argument"@,
            OpCode::ConditionAfter,
        )
    } else if st.cur.tt == TokenType::Before {
        atom_with(
            src,
            st,
            "Expected '(' after 'before'"@,
            "Expected identifier inside before(...)"@,
            "Expected ')' after before(...) argument"@,
            OpCode::ConditionBefore,
        )
    } else if st.cur.tt == TokenType::Satisfied {
        atom_with(
            src,
            st,
            "Expected '(' after 'satisfied'"@,
            "Expected identifier inside satisfied(...)"@,
            "Expected ')' after satisfied(...) argument"@,
            OpCode::ConditionSatisfied,
        )
    } else if st.cur.tt == TokenType::Occurred {
        atom_with(
            src,
            st,
            "Expected '(' after 'occurred'"@,
            "Expected identifier inside occurred(...)"@,
            "Expected ')' after occurred(...) argument"@,
            OpCode::ConditionOccurred,
        )
    } else {
        fail(
            st,
            st.cur.span,
            "Expected condition expression: after(...), before(...), satisfied(...), occurred(...), or grouped (...)"@,
        )
    }
}

/// A condition: `or` of `and`s of primaries, `and` binding tighter; each
/// `and` / `or` emits its opcode after both operands.
#[verifier::opaque]
pub open spec fn cond_or(src: Seq<char>, st: CState) -> CState
    decreases measure(src, st), 4int,
{
    let s1 = cond_and(src, st);
    if s1.err is Some {
        s1
    } else if 0 <= measure(src, s1) <= measure(src, st) {
        cond_or_rest(src, s1)
    } else {
        s1
    }
}

/// The `or` operands that follow the first.
#[verifier::opaque]
pub open spec fn cond_or_rest(src: Seq<char>, st: CState) -> CState
    decreases measure(src, st), 3int,
{
    if st.err is Some || st.cur.tt != TokenType::Or {
        st
    } else {
        let s1 = advance(src, st);
        if 0 <= measure(src, s1) < measure(src, st) {
            let s2 = emit_op(cond_and(src, s1), OpCode::ConditionOr);
            if 0 <= measure(src, s2) < measure(src, st) {
                cond_or_rest(src, s2)
            } else {
                s2
            }
        } else {
            s1
        }
    }
}

#[verifier::opaque]
pub open spec fn cond_and(src: Seq<char>, st: CState) -> CState
    decreases measure(src, st), 2int,
{
    let s1 = cond_primary(src, st);
    if s1.err is Some {
        s1
    } else if 0 <= measure(src, s1) <= measure(src, st) {
        cond_and_rest(src, s1)
    } else {
        s1
    }
}

/// The `and` operands that follow the first.
#[verifier::opaque]
pub open spec fn cond_and_rest(src: Seq<char>, st: CState) -> CState
    decreases measure(src, st), 1int,
{
    if st.err is Some || st.cur.tt != TokenType::And {
        st
    } else {
        let s1 = advance(src, st);
        if 0 <= measure(src, s1) < measure(src, st) {
            let s2 = emit_op(cond_primary(src, s1), OpCode::ConditionAnd);
            if 0 <= measure(src, s2) < measure(src, st) {
                cond_and_rest(src, s2)
            } else {
                s2
            }
        } else {
            s1
        }
    }
}

/// An atom, or a condition in parentheses.
#[verifier::opaque]
pub open spec fn cond_primary(src: Seq<char>, st: CState) -> CState
    decreases measure(src, st), 0int,
{
    if st.err is Some {
        st
    } else if st.cur.tt == TokenType::LeftParen {
        let s1 = advance(src, st);
        if 0 <= measure(src, s1) < measure(src, st) {
            consume(src, cond_or(src, s1), TokenType::RightParen, "Expected ')' after grouped condition expression"@)
        } else {
            s1
        }
    } else {
        cond_atom(src, st)
    }
}

/// `condition: C`, then `SetCondition`.
#[verifier::opaque]
pub open spec fn condition_field(src: Seq<char>, st: CState) -> CState {
    if st.err is Some {
        st
    } else {
        let s1 = consume(src, st, TokenType::Condition, "Expected 'condition'"@);
        let s2 = consume(src, s1, TokenType::Colon, "Expected ':' after 'condition'"@);
        emit_op(cond_or(src, s2), OpCode::SetCondition)
    }
}

/// One field of an obligation (or of a remedy or phase).
#[verifier::opaque]
pub open spec fn field(src: Seq<char>, st: CState) -> CState {
    if st.err is Some {
        st
    } else {
        if st.cur.tt == TokenType::Party {
            party_field(src, st)
        } else if st.cur.tt == TokenType::Action {
            action_field(src, st)
        } else if st.cur.tt == TokenType::Due {
            due_field(src, st)
        } else if st.cur.tt == TokenType::Condition {
            condition_field(src, st)
        } else {
            fail(st, st.cur.span, "Expected obligation field (party, action, due, or condition)"@)
        }
    }
}

/// The fields up to the closing `}`.
#[verifier::opaque]
pub open spec fn fields(src: Seq<char>, st: CState) -> CState
    decreases measure(src, st),
{
    if st.err is Some || st.cur.tt == TokenType::RightBrace || st.cur.tt == TokenType::Eof {
        st
    } else {
        let s1 = field(src, st);
        if 0 <= measure(src, s1) < measure(src, st) {
            fields(src, s1)
        } else {
            s1
        }
    }
}

/// `obligation NAME { fields }`: the name, `BeginObligation`, the fields,
/// `EndObligation`.
#[verifier::opaque]
pub open spec fn obligation_decl(src: Seq<char>, st: CState) -> CState {
    if st.err is Some {
        st
    } else {
        let s1 = consume(src, st, TokenType::Obligation, "Expected 'obligation'"@);
        let s2 = consume(src, s1, TokenType::Identifier, "Expected obligation name"@);
        let name = s2.prev.lexeme;
        let (s3, names) = declared(s2, s2.obligations, name, "obligation name"@);
        let s4 = consume(src, CState { obligations: names, ..s3 }, TokenType::LeftBrace, "Expected '{' after obligation name"@);
        let s5 = emit_op(emit_const(s4, ValueView::Identifier(name)), OpCode::BeginObligation);
        let s6 = fields(src, s5);
        emit_op(consume(src, s6, TokenType::RightBrace, "Expected '}' after obligation block"@), OpCode::EndObligation)
    }
}

// ---------------------------------------------------------------------------
// Remedies and phases
// ---------------------------------------------------------------------------

/// `on breach_of(TARGET)` after a phase name, if present.
#[verifier::opaque]
pub open spec fn phase_target(src: Seq<char>, st: CState) -> (CState, Option<Seq<char>>) {
    if st.err is Some {
        (st, None)
    } else {
        if st.cur.tt == TokenType::On {
            let s1 = advance(src, st);
            let s2 = consume(src, s1, TokenType::BreachOf, "Expected 'breach_of' after 'on'"@);
            let s3 = consume(src, s2, TokenType::LeftParen, "Expected '(' after 'breach_of'"@);
            let s4 = consume(src, s3, TokenType::Identifier, "Expected breach target identifier in breach_of(...)"@);
            let target = s4.prev.lexeme;
            (consume(src, s4, TokenType::RightParen, "Expected ')' after breach_of target"@), Some(target))
        } else {
            (st, None)
        }
    }
}

/// `phase NAME [on breach_of(TARGET)] { fields }`: the name, the marker
/// `breach_of(TARGET)` if any, `BeginPhase`, the fields, `EndPhase`. The
/// phase names of the remedy so far are `names`.
#[verifier::opaque]
pub open spec fn phase_decl(src: Seq<char>, st: CState, names: Seq<Seq<char>>) -> (CState, Seq<Seq<char>>) {
    if st.err is Some {
        (st, names)
    } else {
        let s1 = consume(src, st, TokenType::Phase, "Expected 'phase'"@);
        let s2 = consume(src, s1, TokenType::Identifier, "Expected phase name"@);
        let name = s2.prev.lexeme;
        let (s3, names2) = declared(s2, names, name, "phase name"@);
        let (s4, target) = phase_target(src, s3);
        let s5 = consume(src, s4, TokenType::LeftBrace, "Expected '{' after phase header"@);
        let s6 = emit_const(s5, ValueView::Identifier(name));
        let s7 = match target {
            Some(t) => emit_const(s6, ValueView::Identifier(breach_of(t))),
            None => s6,
        };
        let s8 = fields(src, emit_op(s7, OpCode::BeginPhase));
        (emit_op(consume(src, s8, TokenType::RightBrace, "Expected '}' after phase block"@), OpCode::EndPhase), names2)
    }
}

/// The phases of a remedy.
#[verifier::opaque]
pub open spec fn phases(src: Seq<char>, st: CState, names: Seq<Seq<char>>) -> CState
    decreases measure(src, st),
{
    if st.err is Some || st.cur.tt != TokenType::Phase {
        st
    } else {
        let (s1, names1) = phase_decl(src, st, names);
        if 0 <= measure(src, s1) < measure(src, st) {
            phases(src, s1, names1)
        } else {
            s1
        }
    }
}

/// The body of a remedy: phases (then nothing but `}`), or fields.
#[verifier::opaque]
pub open spec fn remedy_body(src: Seq<char>, st: CState) -> CState {
    if st.err is Some {
        st
    } else if st.cur.tt == TokenType::Phase {
        let s1 = phases(src, st, Seq::empty());
        if s1.err is Some || s1.cur.tt == TokenType::RightBrace || s1.cur.tt == TokenType::Eof {
            s1
        } else {
            fail(s1, s1.cur.span, "Expected 'phase' or '}' in remedy body"@)
        }
    } else {
        fields(src, st)
    }
}

/// `remedy NAME on breach_of(TARGET) { body }`: the name, the target,
/// `BeginRemedy`, the body, `EndRemedy`.
#[verifier::opaque]
pub open spec fn remedy_decl(src: Seq<char>, st: CState) -> CState {
    if st.err is Some {
        st
    } else {
        let s1 = consume(src, st, TokenType::Remedy, "Expected 'remedy'"@);
        let s2 = consume(src, s1, TokenType::Identifier, "Expected remedy name"@);
        let name = s2.prev.lexeme;
        let (s3, names) = declared(s2, s2.remedies, name, "remedy name"@);
        let s4 = consume(src, CState { remedies: names, ..s3 }, TokenType::On, "Expected 'on' after remedy name"@);
        let s5 = consume(src, s4, TokenType::BreachOf, "Expected 'breach_of' after 'on'"@);
        let s6 = consume(src, s5, TokenType::LeftParen, "Expected '(' after 'breach_of'"@);
        let s7 = consume(src, s6, TokenType::Identifier, "Expected breach target identifier in breach_of(...)"@);
        let target = s7.prev.lexeme;
        let s8 = consume(src, s7, TokenType::RightParen, "Expected ')' after breach_of target"@);
        let s9 = consume(src, s8, TokenType::LeftBrace, "Expected '{' after remedy header"@);
        let s10 = emit_op(emit_const(emit_const(s9, ValueView::Identifier(name)), ValueView::Identifier(target)), OpCode::BeginRemedy);
        let s11 = remedy_body(src, s10);
        emit_op(consume(src, s11, TokenType::RightBrace, "Expected '}' after remedy block"@), OpCode::EndRemedy)
    }
}

// ---------------------------------------------------------------------------
// The contract
// ---------------------------------------------------------------------------

/// One declaration.
#[verifier::opaque]
pub open spec fn declaration(src: Seq<char>, st: CState) -> CState {
    if st.err is Some {
        st
    } else {
        if st.cur.tt == TokenType::Parties {
            parties_decl(src, st)
        } else if st.cur.tt == TokenType::Event {
            event_decl(src, st)
        } else if st.cur.tt == TokenType::Term {
            term_decl(src, st)
        } else if st.cur.tt == TokenType::Obligation {
            obligation_decl(src, st)
        } else if st.cur.tt == TokenType::Remedy {
            remedy_decl(src, st)
        } else {
            fail(st, st.cur.span, "Expected declaration (parties, event, term, obligation, or remedy)"@)
        }
    }
}

/// The declarations up to the contract's closing `}`.
#[verifier::opaque]
pub open spec fn declarations(src: Seq<char>, st: CState) -> CState
    decreases measure(src, st),
{
    if st.err is Some || st.cur.tt == TokenType::RightBrace || st.cur.tt == TokenType::Eof {
        st
    } else {
        let s1 = declaration(src, st);
        if 0 <= measure(src, s1) < measure(src, st) {
            declarations(src, s1)
        } else {
            s1
        }
    }
}

/// `contract NAME { declarations }`; the name emits nothing.
#[verifier::opaque]
pub open spec fn contract_decl(src: Seq<char>, st: CState) -> CState {
    if st.err is Some {
        st
    } else {
        let s1 = consume(src, st, TokenType::Contract, "Expected 'contract'"@);
        let s2 = consume(src, s1, TokenType::Identifier, "Expected contract name"@);
        let s3 = consume(src, s2, TokenType::LeftBrace, "Expected '{' after contract name"@);
        let s4 = declarations(src, s3);
        consume(src, s4, TokenType::RightBrace, "Expected '}' after contract body"@)
    }
}

/// The state before the first token.
pub open spec fn initial_state() -> CState {
    CState {
        pos: 0,
        line: 1,
        col: 1,
        cur: no_token(),
        prev: no_token(),
        code: Seq::empty(),
        lines: Seq::empty(),
        consts: Seq::empty(),
        parties: Seq::empty(),
        events: Seq::empty(),
        terms: Seq::empty(),
        obligations: Seq::empty(),
        remedies: Seq::empty(),
        err: None,
    }
}

/// The state after compiling a whole source, `Return` included: an
/// empty source (only white space and comments) gives a lone `Return`;
/// anything after the contract's closing `}` is not read.
#[verifier::opaque]
pub open spec fn compiled_state(src: Seq<char>) -> CState {
    let s0 = advance(src, initial_state());
    let s1 = if s0.cur.tt == TokenType::Eof {
        s0
    } else {
        contract_decl(src, s0)
    };
    emit_op(s1, OpCode::Return)
}

/// What compiling `src` gives: the chunk, or the first error (its span and
/// message).
pub open spec fn compile_result(src: Seq<char>) -> Result<ChunkView, (Span, Seq<char>)> {
    let s = compiled_state(src);
    match s.err {
        Some(e) => Err(e),
        None => Ok(ChunkView { code: s.code, constants: s.consts, lines: s.lines }),
    }
}


/// Every step leaves a state that holds an error unchanged.
pub proof fn lemma_error_kept(src: Seq<char>)
    ensures
        forall|st: CState| st.err is Some ==> #[trigger] advance(src, st) == st,
        forall|st: CState| st.err is Some ==> #[trigger] party_pair(src, st) == st,
        forall|st: CState| st.err is Some ==> #[trigger] party_pairs(src, st) == st,
        forall|st: CState| st.err is Some ==> #[trigger] parties_decl(src, st) == st,
        forall|st: CState| st.err is Some ==> #[trigger] event_decl(src, st) == st,
        forall|st: CState| st.err is Some ==> #[trigger] term_anchor(src, st) == (st, Seq::<char>::empty()),
        forall|st: CState| st.err is Some ==> #[trigger] duration_unit(src, st) == (st, Seq::<char>::empty()),
        forall|st: CState| st.err is Some ==> #[trigger] term_decl(src, st) == st,
        forall|st: CState| st.err is Some ==> #[trigger] party_field(src, st) == st,
        forall|st: CState| st.err is Some ==> #[trigger] action_field(src, st) == st,
        forall|st: CState| st.err is Some ==> #[trigger] inline_due(src, st) == st,
        forall|st: CState| st.err is Some ==> #[trigger] due_field(src, st) == st,
        forall|st: CState, a: Seq<char>, b: Seq<char>, c: Seq<char>, op: OpCode|
            st.err is Some ==> #[trigger] atom_with(src, st, a, b, c, op) == st,
        forall|st: CState| st.err is Some ==> #[trigger] cond_atom(src, st) == st,
        forall|st: CState| st.err is Some ==> #[trigger] cond_or(src, st) == st,
        forall|st: CState| st.err is Some ==> #[trigger] cond_or_rest(src, st) == st,
        forall|st: CState| st.err is Some ==> #[trigger] cond_and(src, st) == st,
        forall|st: CState| st.err is Some ==> #[trigger] cond_and_rest(src, st) == st,
        forall|st: CState| st.err is Some ==> #[trigger] cond_primary(src, st) == st,
        forall|st: CState| st.err is Some ==> #[trigger] condition_field(src, st) == st,
        forall|st: CState| st.err is Some ==> #[trigger] field(src, st) == st,
        forall|st: CState| st.err is Some ==> #[trigger] fields(src, st) == st,
        forall|st: CState| st.err is Some ==> #[trigger] obligation_decl(src, st) == st,
        forall|st: CState| st.err is Some ==> #[trigger] phase_target(src, st) == (st, None::<Seq<char>>),
        forall|st: CState, names: Seq<Seq<char>>| st.err is Some ==> #[trigger] phase_decl(src, st, names) == (st, names),
        forall|st: CState, names: Seq<Seq<char>>| st.err is Some ==> #[trigger] phases(src, st, names) == st,
        forall|st: CState| st.err is Some ==> #[trigger] remedy_body(src, st) == st,
        forall|st: CState| st.err is Some ==> #[trigger] remedy_decl(src, st) == st,
        forall|st: CState| st.err is Some ==> #[trigger] declaration(src, st) == st,
        forall|st: CState| st.err is Some ==> #[trigger] declarations(src, st) == st,
        forall|st: CState| st.err is Some ==> #[trigger] contract_decl(src, st) == st,
{
    reveal(advance);
    reveal(party_pair);
    reveal(party_pairs);
    reveal(parties_decl);
    reveal(event_decl);
    reveal(term_anchor);
    reveal(duration_unit);
    reveal(term_decl);
    reveal(party_field);
    reveal(action_field);
    reveal(inline_due);
    reveal(due_field);
    reveal(atom_with);
    reveal(cond_atom);
    reveal(cond_or);
    reveal(cond_or_rest);
    reveal(cond_and);
    reveal(cond_and_rest);
    reveal(cond_primary);
    reveal(condition_field);
    reveal(field);
    reveal(fields);
    reveal(obligation_decl);
    reveal(phase_target);
    reveal(phase_decl);
    reveal(phases);
    reveal(remedy_body);
    reveal(remedy_decl);
    reveal(declaration);
    reveal(declarations);
    reveal(contract_decl);
}

} // verus!
