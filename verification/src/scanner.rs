//! On-demand lexer: turns source text into tokens with spans.

use vstd::prelude::*;
use crate::error::Span;
use crate::text::{chars_of, push_char, append_str, text_eq};
use crate::token::{Token, TokenType};
use vstd::utf8::{encode_utf8, encode_scalar};

verus! {

pub open spec fn is_digit(c: char) -> bool {
    '0' <= c && c <= '9'
}

pub open spec fn is_alpha(c: char) -> bool {
    ('a' <= c && c <= 'z') || ('A' <= c && c <= 'Z')
}

pub open spec fn is_ident_start(c: char) -> bool {
    is_alpha(c) || c == '_'
}

pub open spec fn is_ident_char(c: char) -> bool {
    is_alpha(c) || is_digit(c) || c == '_'
}

/// Skips blanks, newlines and `--` line comments starting at `cur`; gives the
/// position, line and column reached. A newline moves to column 1 of the next
/// line; every other consumed character moves one column right.
pub open spec fn skip_ws(src: Seq<char>, cur: int, line: int, col: int, in_comment: bool) -> (int, int, int)
    decreases src.len() - cur, if in_comment { 0int } else { 1int },
{
    if cur < 0 || cur >= src.len() {
        (cur, line, col)
    } else if in_comment {
        if src[cur] == '\n' {
            skip_ws(src, cur + 1, line + 1, 1, false)
        } else {
            skip_ws(src, cur + 1, line, col + 1, true)
        }
    } else if src[cur] == ' ' || src[cur] == '\r' || src[cur] == '\t' {
        skip_ws(src, cur + 1, line, col + 1, false)
    } else if src[cur] == '\n' {
        skip_ws(src, cur + 1, line + 1, 1, false)
    } else if src[cur] == '-' && cur + 1 < src.len() && src[cur + 1] == '-' {
        skip_ws(src, cur, line, col, true)
    } else {
        (cur, line, col)
    }
}

/// Consumes the body of a string literal up to (not including) the closing
/// quote or the end of the source.
pub open spec fn string_body_end(src: Seq<char>, cur: int, line: int, col: int) -> (int, int, int)
    decreases src.len() - cur,
{
    if cur < 0 || cur >= src.len() || src[cur] == '"' {
        (cur, line, col)
    } else if src[cur] == '\n' {
        string_body_end(src, cur + 1, line + 1, 1)
    } else {
        string_body_end(src, cur + 1, line, col + 1)
    }
}

pub open spec fn digits_end(src: Seq<char>, cur: int) -> int
    decreases src.len() - cur,
{
    if cur < 0 || cur >= src.len() || !is_digit(src[cur]) {
        cur
    } else {
        digits_end(src, cur + 1)
    }
}

pub open spec fn ident_end(src: Seq<char>, cur: int) -> int
    decreases src.len() - cur,
{
    if cur < 0 || cur >= src.len() || !is_ident_char(src[cur]) {
        cur
    } else {
        ident_end(src, cur + 1)
    }
}

/// The token type of a word: its keyword, or `Identifier`.
pub open spec fn keyword_type(w: Seq<char>) -> TokenType {
    if w == "contract"@ {
        TokenType::Contract
    } else if w == "parties"@ {
        TokenType::Parties
    } else if w == "event"@ {
        TokenType::Event
    } else if w == "term"@ {
        TokenType::Term
    } else if w == "obligation"@ {
        TokenType::Obligation
    } else if w == "remedy"@ {
        TokenType::Remedy
    } else if w == "phase"@ {
        TokenType::Phase
    } else if w == "party"@ {
        TokenType::Party
    } else if w == "action"@ {
        TokenType::Action
    } else if w == "due"@ {
        TokenType::Due
    } else if w == "condition"@ {
        TokenType::Condition
    } else if w == "effect"@ {
        TokenType::Effect
    } else if w == "from"@ {
        TokenType::From
    } else if w == "on"@ {
        TokenType::On
    } else if w == "and"@ {
        TokenType::And
    } else if w == "or"@ {
        TokenType::Or
    } else if w == "after"@ {
        TokenType::After
    } else if w == "before"@ {
        TokenType::Before
    } else if w == "satisfied"@ {
        TokenType::Satisfied
    } else if w == "breach_of"@ {
        TokenType::BreachOf
    } else if w == "occurred"@ {
        TokenType::Occurred
    } else if w == "triggered_by"@ {
        TokenType::TriggeredBy
    } else if w == "date"@ {
        TokenType::Date
    } else if w == "calendar_days"@ {
        TokenType::CalendarDays
    } else if w == "business_days"@ {
        TokenType::BusinessDays
    } else if w == "terminate"@ {
        TokenType::Terminate
    } else if w == "recurring"@ {
        TokenType::Recurring
    } else if w == "until"@ {
        TokenType::Until
    } else {
        TokenType::Identifier
    }
}

/// The token type of a one-character symbol.
pub open spec fn symbol_type(c: char) -> Option<TokenType> {
    if c == '{' {
        Some(TokenType::LeftBrace)
    } else if c == '}' {
        Some(TokenType::RightBrace)
    } else if c == '(' {
        Some(TokenType::LeftParen)
    } else if c == ')' {
        Some(TokenType::RightParen)
    } else if c == ':' {
        Some(TokenType::Colon)
    } else if c == '=' {
        Some(TokenType::Equal)
    } else if c == ',' {
        Some(TokenType::Comma)
    } else if c == '.' {
        Some(TokenType::Dot)
    } else {
        None
    }
}

/// One scanning step: the token found and the position reached.
pub struct ScanStep {
    pub token_type: TokenType,
    pub lexeme: Seq<char>,
    pub tok_line: int,
    pub tok_col: int,
    pub tok_start: int,
    pub tok_end: int,
    pub current: int,
    pub line: int,
    pub col: int,
}

pub open spec fn step_of(
    token_type: TokenType,
    lexeme: Seq<char>,
    start: int,
    end: int,
    line: int,
    col: int,
    tok_col: int,
) -> ScanStep {
    ScanStep {
        token_type,
        lexeme,
        tok_line: line,
        tok_col,
        tok_start: start,
        tok_end: end,
        current: end,
        line,
        col,
    }
}

/// How many bytes the UTF-8 encoding of `c` takes.
pub open spec fn utf8_width(c: char) -> int {
    if (c as u32) <= 0x7F {
        1
    } else if (c as u32) <= 0x7FF {
        2
    } else if (c as u32) <= 0xFFFF {
        3
    } else {
        4
    }
}

/// The byte offset, in the UTF-8 encoding of `src`, of the character at
/// position `i`: the encoded length of the characters before it.
pub open spec fn byte_offset(src: Seq<char>, i: int) -> int
    decreases i,
{
    if i <= 0 {
        0
    } else {
        byte_offset(src, i - 1) + utf8_width(src[i - 1])
    }
}

/// The next token of `src` from position `cur` (at `line`, `col`), with
/// its span in bytes; `current` stays a character position.
pub open spec fn scan_step(src: Seq<char>, cur: int, line: int, col: int) -> ScanStep {
    let st = char_step(src, cur, line, col);
    ScanStep { tok_start: byte_offset(src, st.tok_start), tok_end: byte_offset(src, st.tok_end), ..st }
}

/// The next token of `src` from position `cur` (at `line`, `col`), with
/// its span in character positions.
pub open spec fn char_step(src: Seq<char>, cur: int, line: int, col: int) -> ScanStep {
    let (s, l, c) = skip_ws(src, cur, line, col, false);
    if s < 0 || s >= src.len() {
        step_of(TokenType::Eof, Seq::empty(), s, s, l, c, c)
    } else {
        let ch = src[s];
        if symbol_type(ch) is Some {
            step_of(symbol_type(ch)->0, src.subrange(s, s + 1), s, s + 1, l, c + 1, c)
        } else if ch == '"' {
            let (e, l2, c2) = string_body_end(src, s + 1, l, c + 1);
            if e >= src.len() {
                step_of(TokenType::Error, "Unterminated string"@, s, e, l2, c2, c)
            } else {
                step_of(TokenType::StringLiteral, src.subrange(s, e + 1), s, e + 1, l2, c2 + 1, c)
            }
        } else if is_digit(ch) {
            let e = digits_end(src, s + 1);
            step_of(TokenType::Number, src.subrange(s, e), s, e, l, c + (e - s), c)
        } else if is_ident_start(ch) {
            let e = ident_end(src, s + 1);
            step_of(keyword_type(src.subrange(s, e)), src.subrange(s, e), s, e, l, c + (e - s), c)
        } else {
            step_of(
                TokenType::Error,
                "Unexpected character '"@ + seq![ch] + "'"@,
                s,
                s + 1,
                l,
                c + 1,
                c,
            )
        }
    }
}

pub proof fn lemma_skip_ws_bounds(src: Seq<char>, cur: int, line: int, col: int, in_comment: bool)
    requires
        0 <= cur <= src.len(),
        1 <= line <= cur + 1,
        1 <= col <= cur + 1,
    ensures
        ({
            let (s, l, c) = skip_ws(src, cur, line, col, in_comment);
            &&& cur <= s <= src.len()
            &&& 1 <= l <= s + 1
            &&& 1 <= c <= s + 1
            &&& l >= line
        }),
    decreases src.len() - cur, if in_comment { 0int } else { 1int },
{
    if cur < src.len() {
        if in_comment {
            if src[cur] == '\n' {
                lemma_skip_ws_bounds(src, cur + 1, line + 1, 1, false);
            } else {
                lemma_skip_ws_bounds(src, cur + 1, line, col + 1, true);
            }
        } else if src[cur] == ' ' || src[cur] == '\r' || src[cur] == '\t' {
            lemma_skip_ws_bounds(src, cur + 1, line, col + 1, false);
        } else if src[cur] == '\n' {
            lemma_skip_ws_bounds(src, cur + 1, line + 1, 1, false);
        } else if src[cur] == '-' && cur + 1 < src.len() && src[cur + 1] == '-' {
            lemma_skip_ws_bounds(src, cur, line, col, true);
        }
    }
}

pub proof fn lemma_string_body_bounds(src: Seq<char>, cur: int, line: int, col: int)
    requires
        0 <= cur <= src.len(),
        1 <= line <= cur + 1,
        1 <= col <= cur + 1,
    ensures
        ({
            let (e, l, c) = string_body_end(src, cur, line, col);
            &&& cur <= e <= src.len()
            &&& 1 <= l <= e + 1
            &&& 1 <= c <= e + 1
            &&& (e < src.len() ==> src[e] == '"')
        }),
    decreases src.len() - cur,
{
    if cur < src.len() && src[cur] != '"' {
        if src[cur] == '\n' {
            lemma_string_body_bounds(src, cur + 1, line + 1, 1);
        } else {
            lemma_string_body_bounds(src, cur + 1, line, col + 1);
        }
    }
}

pub proof fn lemma_digits_end_bounds(src: Seq<char>, cur: int)
    requires
        0 <= cur <= src.len(),
    ensures
        cur <= digits_end(src, cur) <= src.len(),
        forall|i: int| cur <= i < digits_end(src, cur) ==> is_digit(#[trigger] src[i]),
    decreases src.len() - cur,
{
    if cur < src.len() && is_digit(src[cur]) {
        lemma_digits_end_bounds(src, cur + 1);
    }
}

pub proof fn lemma_ident_end_bounds(src: Seq<char>, cur: int)
    requires
        0 <= cur <= src.len(),
    ensures
        cur <= ident_end(src, cur) <= src.len(),
        forall|i: int| cur <= i < ident_end(src, cur) ==> is_ident_char(#[trigger] src[i]),
    decreases src.len() - cur,
{
    if cur < src.len() && is_ident_char(src[cur]) {
        lemma_ident_end_bounds(src, cur + 1);
    }
}

/// A scanning position with its line and column, as the scanner keeps them.
pub open spec fn scan_state_ok(src: Seq<char>, p: int, l: int, c: int) -> bool {
    0 <= p <= src.len() && 1 <= l <= p + 1 && 1 <= c <= p + 1
}

/// One step from a valid position: the next position is valid and not
/// before; a token other than `Eof` moves forward; `Eof` stands at the end
/// of the source, and the step from there gives the same `Eof` again.
pub proof fn lemma_scan_step(src: Seq<char>, p: int, l: int, c: int)
    requires
        scan_state_ok(src, p, l, c),
    ensures
        ({
            let st = scan_step(src, p, l, c);
            &&& scan_state_ok(src, st.current, st.line, st.col)
            &&& st.current >= p
            &&& st.token_type != TokenType::Eof ==> st.current > p
            &&& st.token_type == TokenType::Eof ==> st.current == src.len()
            &&& st.token_type == TokenType::Eof ==> scan_step(src, st.current, st.line, st.col) == st
        }),
{
    lemma_skip_ws_bounds(src, p, l, c, false);
    let (s, l1, c1) = skip_ws(src, p, l, c, false);
    if s < src.len() {
        let ch = src[s];
        if symbol_type(ch) is Some {
        } else if ch == '"' {
            lemma_string_body_bounds(src, s + 1, l1, c1 + 1);
        } else if is_digit(ch) {
            lemma_digits_end_bounds(src, s + 1);
        } else if is_ident_start(ch) {
            lemma_ident_end_bounds(src, s + 1);
        }
    }
}

/// The byte span of a token: it starts no earlier than the position the
/// step started from, ends at the position reached, and is not empty unless
/// the token is `Eof`, whose span is empty and lies at the end of the
/// source.
pub proof fn lemma_step_span(src: Seq<char>, p: int, l: int, c: int)
    requires
        scan_state_ok(src, p, l, c),
    ensures
        ({
            let st = scan_step(src, p, l, c);
            &&& byte_offset(src, p) <= st.tok_start <= st.tok_end
            &&& st.tok_end == byte_offset(src, st.current)
            &&& st.token_type != TokenType::Eof ==> st.tok_start < st.tok_end
            &&& st.token_type == TokenType::Eof ==> st.tok_start == st.tok_end
                && st.tok_end == byte_offset(src, src.len() as int)
        }),
{
    lemma_scan_step(src, p, l, c);
    lemma_skip_ws_bounds(src, p, l, c, false);
    let cs = char_step(src, p, l, c);
    let (s, l1, c1) = skip_ws(src, p, l, c, false);
    if s < src.len() {
        let ch = src[s];
        if symbol_type(ch) is Some {
        } else if ch == '"' {
            lemma_string_body_bounds(src, s + 1, l1, c1 + 1);
        } else if is_digit(ch) {
            lemma_digits_end_bounds(src, s + 1);
        } else if is_ident_start(ch) {
            lemma_ident_end_bounds(src, s + 1);
        }
    }
    assert(p <= cs.tok_start && cs.tok_start <= cs.tok_end && cs.tok_end == cs.current);
    lemma_byte_offset_mono(src, p, cs.tok_start);
    lemma_byte_offset_mono(src, cs.tok_start, cs.tok_end);
}

/// The text of a token other than an error token is the source's UTF-8
/// bytes between its span's offsets (for `Eof`, no bytes, at the end).
pub proof fn lemma_token_bytes(src: Seq<char>, p: int, l: int, c: int)
    requires
        scan_state_ok(src, p, l, c),
        scan_step(src, p, l, c).token_type != TokenType::Error,
    ensures
        ({
            let st = scan_step(src, p, l, c);
            &&& st.tok_end <= encode_utf8(src).len()
            &&& encode_utf8(st.lexeme) == encode_utf8(src).subrange(st.tok_start, st.tok_end)
        }),
{
    lemma_scan_step(src, p, l, c);
    lemma_skip_ws_bounds(src, p, l, c, false);
    let cs = char_step(src, p, l, c);
    let (s, l1, c1) = skip_ws(src, p, l, c, false);
    if s < src.len() {
        let ch = src[s];
        if symbol_type(ch) is Some {
        } else if ch == '"' {
            lemma_string_body_bounds(src, s + 1, l1, c1 + 1);
        } else if is_digit(ch) {
            lemma_digits_end_bounds(src, s + 1);
        } else if is_ident_start(ch) {
            lemma_ident_end_bounds(src, s + 1);
        }
    } else {
        assert(src.subrange(s, s) =~= Seq::<char>::empty());
    }
    let a = cs.tok_start;
    let b = cs.tok_end;
    assert(0 <= a <= b <= src.len());
    assert(cs.lexeme == src.subrange(a, b));
    lemma_byte_offset_utf8(src, a);
    lemma_byte_offset_utf8(src, b);
    lemma_byte_offset_utf8(src, src.len() as int);
    assert(src.take(b) =~= src.take(a) + src.subrange(a, b));
    lemma_encode_utf8_concat(src.take(a), src.subrange(a, b));
    assert(src =~= src.take(b) + src.skip(b));
    lemma_encode_utf8_concat(src.take(b), src.skip(b));
    assert(src.take(src.len() as int) =~= src);
    let e = encode_utf8(src);
    let ea = encode_utf8(src.take(a));
    let el = encode_utf8(src.subrange(a, b));
    assert(e == ea + el + encode_utf8(src.skip(b)));
    assert(e.subrange(ea.len() as int, (ea.len() + el.len()) as int) =~= el);
}

proof fn lemma_string_body_col(src: Seq<char>, cur: int, line: int, col: int)
    requires
        0 <= cur <= src.len(),
    ensures
        ({
            let (e, l2, c2) = string_body_end(src, cur, line, col);
            ||| l2 == line && c2 == col + (e - cur)
            ||| l2 > line && c2 <= e - cur
        }),
    decreases src.len() - cur,
{
    if cur < src.len() && src[cur] != '"' {
        if src[cur] == '\n' {
            lemma_string_body_col(src, cur + 1, line + 1, 1);
        } else {
            lemma_string_body_col(src, cur + 1, line, col + 1);
        }
    }
}

/// A token's column is the column at which it starts. Where the token stays
/// on one line, that is the column reached past it less its length in
/// characters; a token that spans lines ends at a column smaller than its
/// length.
pub proof fn lemma_token_column(src: Seq<char>, p: int, l: int, c: int)
    requires
        scan_state_ok(src, p, l, c),
    ensures
        ({
            let cs = char_step(src, p, l, c);
            let (s, l1, c1) = skip_ws(src, p, l, c, false);
            &&& cs.tok_col == c1
            &&& cs.col >= cs.current - cs.tok_start ==> cs.tok_col == cs.col - (cs.current - cs.tok_start)
            &&& cs.line > l1 ==> cs.col < cs.current - cs.tok_start
        }),
{
    lemma_skip_ws_bounds(src, p, l, c, false);
    let (s, l1, c1) = skip_ws(src, p, l, c, false);
    if s < src.len() {
        let ch = src[s];
        if symbol_type(ch) is Some {
        } else if ch == '"' {
            lemma_string_body_bounds(src, s + 1, l1, c1 + 1);
            lemma_string_body_col(src, s + 1, l1, c1 + 1);
        } else if is_digit(ch) {
            lemma_digits_end_bounds(src, s + 1);
        } else if is_ident_start(ch) {
            lemma_ident_end_bounds(src, s + 1);
        }
    }
}

/// The token of the `k`-th call (from 0) of `scan_token` from a position.
pub open spec fn nth_step(src: Seq<char>, p: int, l: int, c: int, k: nat) -> ScanStep
    decreases k,
{
    let st = scan_step(src, p, l, c);
    if k == 0 {
        st
    } else {
        nth_step(src, st.current, st.line, st.col, (k - 1) as nat)
    }
}

/// Scanning ends: from position `p`, every call from the `(n - p)`-th on
/// (`n` the length of the source) returns `Eof`, and always the same one.
pub proof fn lemma_scan_reaches_eof(src: Seq<char>, p: int, l: int, c: int, k: nat)
    requires
        scan_state_ok(src, p, l, c),
        k >= src.len() - p,
    ensures
        nth_step(src, p, l, c, k).token_type == TokenType::Eof,
        nth_step(src, p, l, c, k) == nth_step(src, p, l, c, (src.len() - p) as nat),
    decreases k,
{
    lemma_scan_step(src, p, l, c);
    let st = scan_step(src, p, l, c);
    if st.token_type == TokenType::Eof {
        lemma_eof_repeats(src, p, l, c, k);
        lemma_eof_repeats(src, p, l, c, (src.len() - p) as nat);
    } else {
        lemma_scan_reaches_eof(src, st.current, st.line, st.col, (k - 1) as nat);
        lemma_scan_reaches_eof(src, st.current, st.line, st.col, (src.len() - p - 1) as nat);
        assert(src.len() - p >= 1);
    }
}

/// Once a call returns `Eof`, every later call returns the same token.
pub proof fn lemma_eof_repeats(src: Seq<char>, p: int, l: int, c: int, k: nat)
    requires
        scan_state_ok(src, p, l, c),
        scan_step(src, p, l, c).token_type == TokenType::Eof,
    ensures
        nth_step(src, p, l, c, k) == scan_step(src, p, l, c),
    decreases k,
{
    lemma_scan_step(src, p, l, c);
    let st = scan_step(src, p, l, c);
    if k > 0 {
        lemma_eof_repeats(src, st.current, st.line, st.col, (k - 1) as nat);
    }
}

/// Byte offsets grow with the character position.
pub proof fn lemma_byte_offset_mono(src: Seq<char>, i: int, j: int)
    requires
        0 <= i <= j,
    ensures
        byte_offset(src, i) <= byte_offset(src, j),
        byte_offset(src, i) + (j - i) <= byte_offset(src, j),
    decreases j,
{
    if j > i {
        lemma_byte_offset_mono(src, i, j - 1);
    }
}

proof fn lemma_encode_utf8_concat(a: Seq<char>, b: Seq<char>)
    ensures
        encode_utf8(a + b) == encode_utf8(a) + encode_utf8(b),
    decreases a.len(),
{
    if a.len() == 0 {
        assert(a + b =~= b);
    } else {
        assert((a + b)[0] == a[0]);
        assert((a + b).drop_first() =~= a.drop_first() + b);
        lemma_encode_utf8_concat(a.drop_first(), b);
    }
}

proof fn lemma_encode_one(c: char)
    ensures
        encode_utf8(seq![c]).len() == utf8_width(c),
{
    vstd::utf8::char_is_scalar(c);
    assert(seq![c].drop_first() =~= Seq::<char>::empty());
    assert(encode_utf8(seq![c]) == encode_scalar(c as u32) + encode_utf8(Seq::<char>::empty()));
}

/// The byte offset of position `i` is the length of the UTF-8 encoding of
/// the first `i` characters (std's `str::len` of that prefix).
pub proof fn lemma_byte_offset_utf8(src: Seq<char>, i: int)
    requires
        0 <= i <= src.len(),
    ensures
        byte_offset(src, i) == encode_utf8(src.take(i)).len(),
    decreases i,
{
    if i == 0 {
        assert(src.take(0) =~= Seq::<char>::empty());
    } else {
        lemma_byte_offset_utf8(src, i - 1);
        assert(src.take(i) =~= src.take(i - 1) + seq![src[i - 1]]);
        lemma_encode_utf8_concat(src.take(i - 1), seq![src[i - 1]]);
        lemma_encode_one(src[i - 1]);
    }
}

/// The UTF-8 width of `c` (std's `char::len_utf8`).
fn utf8_width_of(c: char) -> (w: usize)
    ensures
        w == utf8_width(c),
{
    let v = c as u32;
    if v <= 0x7F {
        1
    } else if v <= 0x7FF {
        2
    } else if v <= 0xFFFF {
        3
    } else {
        4
    }
}

pub struct Scanner {
    source: Vec<char>,
    start: usize,
    current: usize,
    start_byte: usize,
    current_byte: usize,
    /// The column at which the token being scanned starts.
    start_column: usize,
    line: usize,
    col: usize,
}

impl Scanner {
    /// The source text being scanned.
    pub closed spec fn src(&self) -> Seq<char> {
        self.source@
    }

    /// Position reached: offset of the next character.
    pub closed spec fn pos(&self) -> int {
        self.current as int
    }

    pub closed spec fn cur_line(&self) -> int {
        self.line as int
    }

    pub closed spec fn cur_col(&self) -> int {
        self.col as int
    }

    /// The scanner's internal counters are consistent with its source.
    pub closed spec fn wf(&self) -> bool {
        &&& self.start <= self.current <= self.source@.len()
        &&& self.source@.len() < usize::MAX
        &&& 1 <= self.line <= self.current + 1
        &&& 1 <= self.col <= self.current + 1
        &&& self.start_byte == byte_offset(self.source@, self.start as int)
        &&& self.current_byte == byte_offset(self.source@, self.current as int)
        &&& byte_offset(self.source@, self.source@.len() as int) <= usize::MAX
    }

    pub proof fn lemma_wf(&self)
        requires
            self.wf(),
        ensures
            0 <= self.pos() <= self.src().len(),
            1 <= self.cur_line(),
            1 <= self.cur_col(),
    {
    }

    /// The position reached.
    pub fn position(&self) -> (p: usize)
        ensures
            p == self.pos(),
    {
        self.current
    }

    pub fn new(source: &str) -> (res: Self)
        requires
            source@.len() < usize::MAX,
            byte_offset(source@, source@.len() as int) <= usize::MAX,
        ensures
            res.wf(),
            res.src() == source@,
            res.pos() == 0,
            res.cur_line() == 1,
            res.cur_col() == 1,
    {
        Self { source: chars_of(source), start: 0, current: 0, start_byte: 0, current_byte: 0, start_column: 1, line: 1, col: 1 }
    }

    /// Returns the next token from the source: the token and the position
    /// reached are those of `scan_step`. At the end of the source every call
    /// returns `Eof`.
    pub fn scan_token(&mut self) -> (tok: Token)
        requires
            old(self).wf(),
        ensures
            final(self).wf(),
            final(self).src() == old(self).src(),
            ({
                let st = scan_step(old(self).src(), old(self).pos(), old(self).cur_line(), old(self).cur_col());
                &&& tok.token_type == st.token_type
                &&& tok.lexeme@ == st.lexeme
                &&& tok.span.line == st.tok_line
                &&& tok.span.col == st.tok_col
                &&& tok.span.start == st.tok_start
                &&& tok.span.end == st.tok_end
                &&& final(self).pos() == st.current
                &&& final(self).cur_line() == st.line
                &&& final(self).cur_col() == st.col
            }),
            final(self).pos() >= old(self).pos(),
            tok.token_type == TokenType::Eof ==> final(self).pos() == final(self).src().len(),
            tok.token_type != TokenType::Eof ==> final(self).pos() > old(self).pos(),
    {
        proof {
            lemma_skip_ws_bounds(self.source@, self.current as int, self.line as int, self.col as int, false);
        }
        self.skip_whitespace();
        self.start = self.current;
        self.start_byte = self.current_byte;
        self.start_column = self.col;
        if self.is_at_end() {
            return self.make_token(TokenType::Eof);
        }
        let c = self.advance();
        if c == '{' {
            self.make_token(TokenType::LeftBrace)
        } else if c == '}' {
            self.make_token(TokenType::RightBrace)
        } else if c == '(' {
            self.make_token(TokenType::LeftParen)
        } else if c == ')' {
            self.make_token(TokenType::RightParen)
        } else if c == ':' {
            self.make_token(TokenType::Colon)
        } else if c == '=' {
            self.make_token(TokenType::Equal)
        } else if c == ',' {
            self.make_token(TokenType::Comma)
        } else if c == '.' {
            self.make_token(TokenType::Dot)
        } else if c == '"' {
            self.string()
        } else if '0' <= c && c <= '9' {
            self.number()
        } else if ('a' <= c && c <= 'z') || ('A' <= c && c <= 'Z') || c == '_' {
            self.identifier()
        } else {
            let mut msg = String::from_str("Unexpected character '");
            push_char(&mut msg, c);
            append_str(&mut msg, "'");
            self.error_token(msg.as_str())
        }
    }

    fn is_at_end(&self) -> (res: bool)
        requires
            self.wf(),
        ensures
            res == (self.current >= self.source@.len()),
    {
        self.current >= self.source.len()
    }

    fn peek(&self) -> (c: char)
        requires
            self.wf(),
        ensures
            self.current < self.source@.len() ==> c == self.source@[self.current as int],
            self.current >= self.source@.len() ==> c == '\0',
    {
        if self.is_at_end() {
            '\0'
        } else {
            self.source[self.current]
        }
    }

    fn advance(&mut self) -> (c: char)
        requires
            old(self).wf(),
            old(self).current < old(self).source@.len(),
        ensures
            final(self).wf(),
            c == old(self).source@[old(self).current as int],
            final(self).source == old(self).source,
            final(self).start == old(self).start,
            final(self).start_column == old(self).start_column,
            final(self).current == old(self).current + 1,
            final(self).start_byte == old(self).start_byte,
            final(self).line == old(self).line,
            final(self).col == old(self).col + 1,
    {
        let c = self.source[self.current];
        proof {
            lemma_byte_offset_mono(self.source@, self.current as int + 1, self.source@.len() as int);
        }
        self.current_byte = self.current_byte + utf8_width_of(c);
        self.current = self.current + 1;
        self.col = self.col + 1;
        c
    }

    fn skip_whitespace(&mut self)
        requires
            old(self).wf(),
        ensures
            final(self).wf(),
            final(self).source == old(self).source,
            final(self).start == old(self).start,
            final(self).start_column == old(self).start_column,
            (final(self).current as int, final(self).line as int, final(self).col as int)
                == skip_ws(old(self).source@, old(self).current as int, old(self).line as int, old(self).col as int, false),
    {
        let ghost target = skip_ws(self.source@, self.current as int, self.line as int, self.col as int, false);
        let mut in_comment = false;
        loop
            invariant
                self.wf(),
                self.source == old(self).source,
                self.start == old(self).start,
                self.start_column == old(self).start_column,
                skip_ws(self.source@, self.current as int, self.line as int, self.col as int, in_comment) == target,
                target == skip_ws(old(self).source@, old(self).current as int, old(self).line as int, old(self).col as int, false),
            decreases self.source@.len() - self.current, if in_comment { 0int } else { 1int },
        {
            if self.is_at_end() {
                return;
            }
            let c = self.peek();
            if in_comment {
                if c == '\n' {
                    self.advance();
                    self.line = self.line + 1;
                    self.col = 1;
                    in_comment = false;
                } else {
                    self.advance();
                }
            } else if c == ' ' || c == '\r' || c == '\t' {
                self.advance();
            } else if c == '\n' {
                self.advance();
                self.line = self.line + 1;
                self.col = 1;
            } else if c == '-' && self.current + 1 < self.source.len()
                && self.source[self.current + 1] == '-' {
                in_comment = true;
            } else {
                return;
            }
        }
    }

    fn string(&mut self) -> (tok: Token)
        requires
            old(self).wf(),
            old(self).current == old(self).start + 1,
            old(self).source@[old(self).start as int] == '"',
        ensures
            final(self).current >= old(self).current,
            final(self).wf(),
            final(self).source == old(self).source,
            ({
                let (e, l2, c2) = string_body_end(old(self).source@, old(self).current as int, old(self).line as int, old(self).col as int);
                let s = old(self).start as int;
                let st = if e >= old(self).source@.len() {
                    step_of(TokenType::Error, "Unterminated string"@, s, e, l2, c2, old(self).start_column as int)
                } else {
                    step_of(TokenType::StringLiteral, old(self).source@.subrange(s, e + 1), s, e + 1, l2, c2 + 1, old(self).start_column as int)
                };
                &&& tok.token_type == st.token_type
                &&& tok.lexeme@ == st.lexeme
                &&& tok.span.line == st.tok_line
                &&& tok.span.col == st.tok_col
                &&& tok.span.start == byte_offset(old(self).source@, st.tok_start)
                &&& tok.span.end == byte_offset(old(self).source@, st.tok_end)
                &&& final(self).current == st.current
                &&& final(self).line == st.line
                &&& final(self).col == st.col
            }),
    {
        let ghost target = string_body_end(self.source@, self.current as int, self.line as int, self.col as int);
        while !self.is_at_end() && self.peek() != '"'
            invariant
                self.wf(),
                self.source == old(self).source,
                self.start == old(self).start,
                self.start_column == old(self).start_column,
                string_body_end(self.source@, self.current as int, self.line as int, self.col as int) == target,
                self.current >= old(self).current,
                target == string_body_end(old(self).source@, old(self).current as int, old(self).line as int, old(self).col as int),
            decreases self.source@.len() - self.current,
        {
            if self.peek() == '\n' {
                self.advance();
                self.line = self.line + 1;
                self.col = 1;
            } else {
                self.advance();
            }
        }
        if self.is_at_end() {
            return self.error_token("Unterminated string");
        }
        self.advance();
        self.make_token(TokenType::StringLiteral)
    }

    fn number(&mut self) -> (tok: Token)
        requires
            old(self).wf(),
            old(self).current == old(self).start + 1,
        ensures
            final(self).current >= old(self).current,
            final(self).wf(),
            final(self).source == old(self).source,
            ({
                let s = old(self).start as int;
                let e = digits_end(old(self).source@, old(self).current as int);
                let st = step_of(TokenType::Number, old(self).source@.subrange(s, e), s, e,
                    old(self).line as int, old(self).col + (e - old(self).current), old(self).start_column as int);
                &&& tok.token_type == st.token_type
                &&& tok.lexeme@ == st.lexeme
                &&& tok.span.line == st.tok_line
                &&& tok.span.col == st.tok_col
                &&& tok.span.start == byte_offset(old(self).source@, st.tok_start)
                &&& tok.span.end == byte_offset(old(self).source@, st.tok_end)
                &&& final(self).current == st.current
                &&& final(self).line == st.line
                &&& final(self).col == st.col
            }),
    {
        let ghost target = digits_end(self.source@, self.current as int);
        let ghost c0 = self.col as int - self.current as int;
        while !self.is_at_end() && ('0' <= self.peek() && self.peek() <= '9')
            invariant
                self.wf(),
                self.source == old(self).source,
                self.start == old(self).start,
                self.start_column == old(self).start_column,
                self.line == old(self).line,
                self.current >= old(self).current,
                self.col as int - self.current as int == c0,
                digits_end(self.source@, self.current as int) == target,
                target == digits_end(old(self).source@, old(self).current as int),
                c0 == old(self).col as int - old(self).current as int,
            decreases self.source@.len() - self.current,
        {
            self.advance();
        }
        self.make_token(TokenType::Number)
    }

    fn identifier(&mut self) -> (tok: Token)
        requires
            old(self).wf(),
            old(self).current == old(self).start + 1,
        ensures
            final(self).current >= old(self).current,
            final(self).wf(),
            final(self).source == old(self).source,
            ({
                let s = old(self).start as int;
                let e = ident_end(old(self).source@, old(self).current as int);
                let w = old(self).source@.subrange(s, e);
                let st = step_of(keyword_type(w), w, s, e,
                    old(self).line as int, old(self).col + (e - old(self).current), old(self).start_column as int);
                &&& tok.token_type == st.token_type
                &&& tok.lexeme@ == st.lexeme
                &&& tok.span.line == st.tok_line
                &&& tok.span.col == st.tok_col
                &&& tok.span.start == byte_offset(old(self).source@, st.tok_start)
                &&& tok.span.end == byte_offset(old(self).source@, st.tok_end)
                &&& final(self).current == st.current
                &&& final(self).line == st.line
                &&& final(self).col == st.col
            }),
    {
        let ghost target = ident_end(self.source@, self.current as int);
        let ghost c0 = self.col as int - self.current as int;
        while !self.is_at_end() && Self::is_ident_char(self.peek())
            invariant
                self.wf(),
                self.source == old(self).source,
                self.start == old(self).start,
                self.start_column == old(self).start_column,
                self.line == old(self).line,
                self.current >= old(self).current,
                self.col as int - self.current as int == c0,
                ident_end(self.source@, self.current as int) == target,
                target == ident_end(old(self).source@, old(self).current as int),
                c0 == old(self).col as int - old(self).current as int,
            decreases self.source@.len() - self.current,
        {
            self.advance();
        }
        let tok = self.make_token(TokenType::Identifier);
        let tt = Self::keyword_type(tok.lexeme.as_str());
        Token { token_type: tt, lexeme: tok.lexeme, span: tok.span }
    }

    fn is_ident_char(p: char) -> (res: bool)
        ensures
            res == is_ident_char(p),
    {
        ('a' <= p && p <= 'z') || ('A' <= p && p <= 'Z') || ('0' <= p && p <= '9') || p == '_'
    }

    fn keyword_type(word: &str) -> (tt: TokenType)
        ensures
            tt == keyword_type(word@),
    {
        if text_eq(word, "contract") {
            TokenType::Contract
        } else if text_eq(word, "parties") {
            TokenType::Parties
        } else if text_eq(word, "event") {
            TokenType::Event
        } else if text_eq(word, "term") {
            TokenType::Term
        } else if text_eq(word, "obligation") {
            TokenType::Obligation
        } else if text_eq(word, "remedy") {
            TokenType::Remedy
        } else if text_eq(word, "phase") {
            TokenType::Phase
        } else if text_eq(word, "party") {
            TokenType::Party
        } else if text_eq(word, "action") {
            TokenType::Action
        } else if text_eq(word, "due") {
            TokenType::Due
        } else if text_eq(word, "condition") {
            TokenType::Condition
        } else if text_eq(word, "effect") {
            TokenType::Effect
        } else if text_eq(word, "from") {
            TokenType::From
        } else if text_eq(word, "on") {
            TokenType::On
        } else if text_eq(word, "and") {
            TokenType::And
        } else if text_eq(word, "or") {
            TokenType::Or
        } else if text_eq(word, "after") {
            TokenType::After
        } else if text_eq(word, "before") {
            TokenType::Before
        } else if text_eq(word, "satisfied") {
            TokenType::Satisfied
        } else if text_eq(word, "breach_of") {
            TokenType::BreachOf
        } else if text_eq(word, "occurred") {
            TokenType::Occurred
        } else if text_eq(word, "triggered_by") {
            TokenType::TriggeredBy
        } else if text_eq(word, "date") {
            TokenType::Date
        } else if text_eq(word, "calendar_days") {
            TokenType::CalendarDays
        } else if text_eq(word, "business_days") {
            TokenType::BusinessDays
        } else if text_eq(word, "terminate") {
            TokenType::Terminate
        } else if text_eq(word, "recurring") {
            TokenType::Recurring
        } else if text_eq(word, "until") {
            TokenType::Until
        } else {
            TokenType::Identifier
        }
    }


    fn make_token(&self, token_type: TokenType) -> (tok: Token)
        requires
            self.wf(),
        ensures
            tok.token_type == token_type,
            tok.lexeme@ == self.source@.subrange(self.start as int, self.current as int),
            tok.span.line == self.line,
            tok.span.col == self.start_column,
            tok.span.start == byte_offset(self.source@, self.start as int),
            tok.span.end == byte_offset(self.source@, self.current as int),
    {
        let mut lexeme = String::new();
        let mut i = self.start;
        while i < self.current
            invariant
                self.wf(),
                self.start <= i <= self.current,
                lexeme@ == self.source@.subrange(self.start as int, i as int),
            decreases self.current - i,
        {
            push_char(&mut lexeme, self.source[i]);
            i = i + 1;
            assert(lexeme@ =~= self.source@.subrange(self.start as int, i as int));
        }
        Token {
            token_type,
            lexeme,
            span: Span::new(self.line, self.start_column, self.start_byte, self.current_byte),
        }
    }

    fn error_token(&self, message: &str) -> (tok: Token)
        requires
            self.wf(),
        ensures
            tok.token_type == TokenType::Error,
            tok.lexeme@ == message@,
            tok.span.line == self.line,
            tok.span.col == self.start_column,
            tok.span.start == byte_offset(self.source@, self.start as int),
            tok.span.end == byte_offset(self.source@, self.current as int),
    {
        Token {
            token_type: TokenType::Error,
            lexeme: String::from_str(message),
            span: Span::new(self.line, self.start_column, self.start_byte, self.current_byte),
        }
    }
}

} // verus!
