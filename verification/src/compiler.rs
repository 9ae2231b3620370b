//! Single-pass compiler from contract source to bytecode.
//!
//! A recursive-descent parser over the scanner's tokens emits bytecode as it
//! goes. Errors are collected in panic mode: after an error, further errors
//! are suppressed until the next declaration starts. What a compilation
//! gives is stated in `grammar`: the chunk when no error is found, the first
//! error otherwise.

use vstd::prelude::*;
use crate::chunk::{Chunk, ChunkView, OpCode, Value, ValueView, opcode_byte};
use crate::error::{KontraError, Span};
use crate::grammar as g;
use crate::grammar::{CState, TokV};
use crate::scanner::{Scanner, byte_offset, scan_step};
use crate::text::{owned, append_str, push_char, text_eq, texts, chars_of, text_range};
use crate::token::{Token, TokenType};

verus! {

pub struct Compiler {
    scanner: Scanner,
    current: Token,
    previous: Token,
    chunk: Chunk,
    had_error: bool,
    panic_mode: bool,
    errors: Vec<KontraError>,
    party_roles: Vec<String>,
    event_names: Vec<String>,
    term_names: Vec<String>,
    obligation_names: Vec<String>,
    remedy_names: Vec<String>,
}

/// A zero-position token that stands for "no token yet".
fn sentinel_token() -> (t: Token)
    ensures
        tokv(t) == g::no_token(),
{
    let t = Token { token_type: TokenType::Eof, lexeme: String::new(), span: Span::new(0, 0, 0, 0) };
    assert(t.lexeme@ =~= Seq::<char>::empty());
    t
}

/// A token as the grammar sees it.
pub open spec fn tokv(t: Token) -> TokV {
    TokV { tt: t.token_type, lexeme: t.lexeme@, span: t.span }
}

/// The span and message of a compile error.
pub open spec fn error_parts(e: KontraError) -> (Span, Seq<char>) {
    match e {
        KontraError::Compile { span, message } => (span, message@),
        KontraError::Scan { span, message } => (span, message@),
        KontraError::Runtime { message, .. } => (Span { line: 0, col: 0, start: 0, end: 0 }, message@),
    }
}

/// Adds `name` to `names` unless it is there; tells whether it was new.
fn insert_name(names: &mut Vec<String>, name: &str) -> (added: bool)
    ensures
        added == !texts(old(names)@).contains(name@),
        texts(final(names)@) == if added { texts(old(names)@).push(name@) } else { texts(old(names)@) },
{
    let mut i: usize = 0;
    while i < names.len()
        invariant
            i <= names@.len(),
            names@ == old(names)@,
            forall|j: int| 0 <= j < i ==> texts(names@)[j] != name@,
        decreases names@.len() - i,
    {
        if text_eq(names[i].as_str(), name) {
            proof {
                assert(texts(names@)[i as int] == name@);
            }
            return false;
        }
        i = i + 1;
    }
    let ghost before = texts(names@);
    names.push(owned(name));
    proof {
        assert(texts(names@) =~= before.push(name@));
    }
    true
}

/// The text between the first and the last character (a string literal
/// without its quotes).
fn strip_quotes(raw: &str) -> (res: String)
    ensures
        res@ == g::unquote(raw@),
{
    let cs = chars_of(raw);
    if cs.len() >= 2 {
        text_range(&cs, 1, cs.len() - 1)
    } else {
        let r = String::new();
        assert(r@ =~= Seq::<char>::empty());
        r
    }
}

/// Reads a number token: its digits, saturating at the largest `u64`.
fn parse_number(s: &str) -> (res: Option<u64>)
    ensures
        res == g::number_of(s@),
{
    let cs = chars_of(s);
    if cs.len() == 0 {
        return None;
    }
    let mut i: usize = 0;
    while i < cs.len()
        invariant
            cs@ == s@,
            i <= cs@.len(),
            forall|j: int| 0 <= j < i ==> '0' <= #[trigger] s@[j] && s@[j] <= '9',
        decreases cs@.len() - i,
    {
        if !('0' <= cs[i] && cs[i] <= '9') {
            proof {
                assert(!crate::text::all_digits(s@));
            }
            return None;
        }
        i = i + 1;
    }
    Some(crate::text::parse_digits_saturating(s))
}

/// `breach_of(NAME)`.
fn breach_of_text(name: &str) -> (res: String)
    ensures
        res@ == g::breach_of(name@),
{
    let mut s = owned("breach_of(");
    append_str(&mut s, name);
    append_str(&mut s, ")");
    s
}

/// `Duplicate <kind> '<name>'`.
fn duplicate_text(kind: &str, name: &str) -> (res: String)
    ensures
        res@ == g::duplicate(kind@, name@),
{
    let mut s = owned("Duplicate ");
    append_str(&mut s, kind);
    append_str(&mut s, " '");
    append_str(&mut s, name);
    append_str(&mut s, "'");
    s
}

impl Compiler {
    /// The compiler's state as the grammar sees it.
    closed spec fn cview(&self) -> CState {
        CState {
            pos: self.scanner.pos(),
            line: self.scanner.cur_line(),
            col: self.scanner.cur_col(),
            cur: tokv(self.current),
            prev: tokv(self.previous),
            code: self.chunk.code@,
            lines: self.chunk.lines@,
            consts: self.chunk.constants@.map_values(|v: Value| v@),
            parties: texts(self.party_roles@),
            events: texts(self.event_names@),
            terms: texts(self.term_names@),
            obligations: texts(self.obligation_names@),
            remedies: texts(self.remedy_names@),
            err: None,
        }
    }

    closed spec fn src(&self) -> Seq<char> {
        self.scanner.src()
    }

    /// How much input is left (see `grammar::measure`).
    closed spec fn measure(&self) -> int {
        g::measure(self.scanner.src(), self.cview())
    }

    /// The compiler is where the grammar's state `s` says: at `s` when
    /// neither has an error, and holding `s`'s error as its first one
    /// otherwise.
    closed spec fn agrees(&self, s: CState) -> bool {
        match s.err {
            Some(e) => self.had_error && self.errors@.len() > 0 && error_parts(self.errors@[0]) == e,
            None => !self.had_error && self.cview() == s,
        }
    }

    closed spec fn inv(&self) -> bool {
        &&& self.scanner.wf()
        &&& self.current.token_type != TokenType::Error
        &&& self.current.token_type == TokenType::Eof ==> self.scanner.pos() == self.scanner.src().len()
        &&& self.chunk.code@.len() == self.chunk.lines@.len()
        &&& self.had_error ==> self.errors@.len() > 0
        &&& !self.had_error ==> self.errors@.len() == 0
        &&& self.panic_mode ==> self.had_error
        &&& forall|i: int| 0 <= i < self.errors@.len() ==> (#[trigger] self.errors@[i]) is Compile
    }

    /// `new` was reached from `old` without going back in the input, and
    /// keeps `old`'s first error.
    closed spec fn progress(old: Compiler, new: Compiler) -> bool {
        &&& new.inv()
        &&& new.measure() <= old.measure()
        &&& new.scanner.src() == old.scanner.src()
        &&& new.scanner.pos() >= old.scanner.pos()
        &&& old.had_error ==> new.had_error
        &&& old.had_error ==> new.errors@[0] == old.errors@[0]
    }

    proof fn lemma_measure(&self)
        requires
            self.inv(),
        ensures
            self.measure() >= 0,
            self.current.token_type != TokenType::Eof ==> self.measure() >= 1,
    {
        self.scanner.lemma_wf();
    }

    fn new(source: &str) -> (res: Self)
        requires
            source@.len() < usize::MAX,
            byte_offset(source@, source@.len() as int) <= usize::MAX,
        ensures
            res.scanner.wf(),
            res.scanner.src() == source@,
            res.cview() == g::initial_state(),
            res.chunk.code@.len() == 0,
            res.chunk.lines@.len() == 0,
            !res.had_error,
            !res.panic_mode,
            res.errors@.len() == 0,
    {
        let res = Compiler {
            scanner: Scanner::new(source),
            current: sentinel_token(),
            previous: sentinel_token(),
            chunk: Chunk::new(),
            had_error: false,
            panic_mode: false,
            errors: Vec::new(),
            party_roles: Vec::new(),
            event_names: Vec::new(),
            term_names: Vec::new(),
            obligation_names: Vec::new(),
            remedy_names: Vec::new(),
        };
        proof {
            assert(res.chunk.constants@.map_values(|v: Value| v@) =~= Seq::<ValueView>::empty());
            assert(texts(res.party_roles@) =~= Seq::<Seq<char>>::empty());
            assert(texts(res.event_names@) =~= Seq::<Seq<char>>::empty());
            assert(texts(res.term_names@) =~= Seq::<Seq<char>>::empty());
            assert(texts(res.obligation_names@) =~= Seq::<Seq<char>>::empty());
            assert(texts(res.remedy_names@) =~= Seq::<Seq<char>>::empty());
            assert(res.chunk.code@ =~= Seq::<u8>::empty());
            assert(res.chunk.lines@ =~= Seq::<usize>::empty());
            assert(res.cview() =~~= g::initial_state());
        }
        res
    }

    /// Compiles a source text into a chunk (see `grammar::compile_result`):
    /// on failure, the first error found, a compile error at the span and
    /// with the message the grammar gives. An empty source (or one of white
    /// space and comments only) compiles to a lone `Return`.
    pub fn compile(source: &str) -> (res: Result<Chunk, KontraError>)
        requires
            source@.len() < usize::MAX,
            byte_offset(source@, source@.len() as int) <= usize::MAX,
        ensures
            match g::compile_result(source@) {
                Ok(cv) => res is Ok && res->Ok_0@ == cv,
                Err(e) => res is Err && res->Err_0 is Compile && error_parts(res->Err_0) == e,
            },
    {
        proof {
            reveal(g::compiled_state);
            g::lemma_error_kept(source@);
        }
        let mut compiler = Compiler::new(source);
        let ghost src = source@;
        compiler.advance_first();
        let ghost s0 = g::advance(src, g::initial_state());
        assert(compiler.agrees(s0));
        if !compiler.check(TokenType::Eof) {
            compiler.contract();
        }
        let ghost s1 = if s0.cur.tt == TokenType::Eof { s0 } else { g::contract_decl(src, s0) };
        assert(compiler.agrees(s1));
        compiler.emit_return();
        proof {
            assert(compiler.agrees(g::compiled_state(src)));
        }
        if compiler.had_error {
            let mut errors = compiler.errors;
            proof {
                assert(errors@[0] is Compile);
            }
            Err(errors.remove(0))
        } else {
            proof {
                let t = g::compiled_state(src);
                assert(compiler.chunk@ =~~= (ChunkView { code: t.code, constants: t.consts, lines: t.lines }));
            }
            Ok(compiler.chunk)
        }
    }

    /// Scans tokens until one the scanner does not refuse, reporting each
    /// refused one (an error was reported already).
    fn skip_error_tokens(&mut self)
        requires
            old(self).scanner.wf(),
            old(self).had_error,
            old(self).errors@.len() > 0,
            old(self).chunk.code@.len() == old(self).chunk.lines@.len(),
            old(self).panic_mode ==> old(self).had_error,
            forall|i: int| 0 <= i < old(self).errors@.len() ==> (#[trigger] old(self).errors@[i]) is Compile,
        ensures
            final(self).inv(),
            final(self).had_error,
            final(self).errors@[0] == old(self).errors@[0],
            final(self).scanner.src() == old(self).scanner.src(),
            final(self).scanner.pos() >= old(self).scanner.pos(),
            final(self).chunk == old(self).chunk,
            final(self).previous == old(self).previous,
    {
        loop
            invariant
                self.scanner.wf(),
                self.scanner.src() == old(self).scanner.src(),
                self.scanner.pos() >= old(self).scanner.pos(),
                self.chunk == old(self).chunk,
                self.previous == old(self).previous,
                self.chunk.code@.len() == self.chunk.lines@.len(),
                self.had_error,
                self.errors@.len() > 0,
                self.errors@[0] == old(self).errors@[0],
                self.panic_mode ==> self.had_error,
                forall|i: int| 0 <= i < self.errors@.len() ==> (#[trigger] self.errors@[i]) is Compile,
            ensures
                self.scanner.wf(),
                self.scanner.src() == old(self).scanner.src(),
                self.scanner.pos() >= old(self).scanner.pos(),
                self.chunk == old(self).chunk,
                self.previous == old(self).previous,
                self.chunk.code@.len() == self.chunk.lines@.len(),
                self.had_error,
                self.errors@.len() > 0,
                self.errors@[0] == old(self).errors@[0],
                self.panic_mode ==> self.had_error,
                forall|i: int| 0 <= i < self.errors@.len() ==> (#[trigger] self.errors@[i]) is Compile,
                self.current.token_type != TokenType::Error,
                self.current.token_type == TokenType::Eof ==> self.scanner.pos() == self.scanner.src().len(),
            decreases self.scanner.src().len() - self.scanner.pos(),
        {
            proof {
                self.scanner.lemma_wf();
            }
            let tok = self.scanner.scan_token();
            self.current = tok;
            if self.current.token_type != TokenType::Error {
                break;
            }
            let msg = self.current.lexeme.clone();
            self.error_at_current(msg.as_str());
            proof {
                self.scanner.lemma_wf();
            }
        }
    }

    /// Moves to the next token (the grammar's `advance`); refused tokens
    /// are reported and skipped.
    fn step(&mut self)
        requires
            old(self).scanner.wf(),
            old(self).chunk.code@.len() == old(self).chunk.lines@.len(),
            old(self).had_error ==> old(self).errors@.len() > 0,
            !old(self).had_error ==> old(self).errors@.len() == 0,
            old(self).panic_mode ==> old(self).had_error,
            forall|i: int| 0 <= i < old(self).errors@.len() ==> (#[trigger] old(self).errors@[i]) is Compile,
        ensures
            final(self).inv(),
            final(self).scanner.src() == old(self).scanner.src(),
            final(self).scanner.pos() >= old(self).scanner.pos(),
            final(self).current.token_type != TokenType::Eof ==> final(self).scanner.pos() > old(self).scanner.pos(),
            final(self).chunk == old(self).chunk,
            old(self).had_error ==> final(self).had_error && final(self).errors@[0] == old(self).errors@[0],
            !old(self).had_error ==> final(self).agrees(g::advance(old(self).scanner.src(), old(self).cview())),
    {
        proof {
            reveal(g::advance);
            g::lemma_error_kept(self.scanner.src());
        }
        self.previous = self.current.clone();
        proof {
            self.scanner.lemma_wf();
        }
        let tok = self.scanner.scan_token();
        self.current = tok;
        if self.current.token_type == TokenType::Error {
            let msg = self.current.lexeme.clone();
            self.error_at_current(msg.as_str());
            self.skip_error_tokens();
        }
        proof {
            self.scanner.lemma_wf();
        }
    }

    /// The first `advance`, from the fresh compiler.
    fn advance_first(&mut self)
        requires
            old(self).scanner.wf(),
            old(self).cview() == g::initial_state(),
            old(self).chunk.code@.len() == old(self).chunk.lines@.len(),
            !old(self).had_error,
            !old(self).panic_mode,
            old(self).errors@.len() == 0,
        ensures
            final(self).inv(),
            final(self).scanner.src() == old(self).scanner.src(),
            final(self).agrees(g::advance(old(self).scanner.src(), g::initial_state())),
    {
        self.step();
    }

    /// Moves to the next token, reporting (and skipping) scanner errors.
    fn advance(&mut self)
        requires
            old(self).inv(),
        ensures
            Self::progress(*old(self), *final(self)),
            old(self).current.token_type != TokenType::Eof ==> final(self).measure() < old(self).measure(),
            final(self).chunk == old(self).chunk,
            !old(self).had_error ==> final(self).agrees(g::advance(old(self).scanner.src(), old(self).cview())),
    {
        proof {
            g::lemma_error_kept(self.scanner.src());
        }
        proof {
            old(self).scanner.lemma_wf();
        }
        self.step();
        proof {
            self.scanner.lemma_wf();
        }
    }

    fn consume(&mut self, expected: TokenType, msg: &str)
        requires
            old(self).inv(),
        ensures
            Self::progress(*old(self), *final(self)),
            old(self).current.token_type == expected && expected != TokenType::Eof ==> final(self).measure() < old(self).measure(),
            old(self).current.token_type != expected ==> final(self).had_error,
            final(self).chunk == old(self).chunk,
            !old(self).had_error ==> final(self).agrees(g::consume(old(self).scanner.src(), old(self).cview(), expected, msg@)),
    {
        proof {
            g::lemma_error_kept(self.scanner.src());
        }
        if self.current.token_type == expected {
            self.advance();
            return;
        }
        self.error_at_current(msg);
    }

    fn check(&self, tt: TokenType) -> (b: bool)
        ensures
            b == (self.current.token_type == tt),
    {
        self.current.token_type == tt
    }

    fn match_token(&mut self, tt: TokenType) -> (b: bool)
        requires
            old(self).inv(),
        ensures
            Self::progress(*old(self), *final(self)),
            b == (old(self).current.token_type == tt),
            b && tt != TokenType::Eof ==> final(self).measure() < old(self).measure(),
            !b ==> *final(self) == *old(self),
            final(self).chunk == old(self).chunk,
            !old(self).had_error ==> final(self).agrees(g::skip(old(self).scanner.src(), old(self).cview(), tt)),
    {
        proof {
            g::lemma_error_kept(self.scanner.src());
        }
        if !self.check(tt) {
            return false;
        }
        self.advance();
        true
    }

    /// Appends a byte, from the line of the last token consumed.
    fn emit_byte(&mut self, byte: u8)
        requires
            old(self).inv(),
        ensures
            Self::progress(*old(self), *final(self)),
            final(self).measure() == old(self).measure(),
            final(self).chunk.code@ == old(self).chunk.code@.push(byte),
            final(self).chunk.lines@ == old(self).chunk.lines@.push(old(self).previous.span.line),
            final(self).chunk.constants@ == old(self).chunk.constants@,
            final(self).had_error == old(self).had_error,
            final(self).errors == old(self).errors,
            !old(self).had_error ==> final(self).agrees(g::emit(old(self).cview(), byte)),
    {
        let line = self.previous.span.line;
        self.chunk.write(byte, line);
        proof {
            assert(self.cview() =~~= g::emit(old(self).cview(), byte));
        }
    }

    fn emit_op(&mut self, op: OpCode)
        requires
            old(self).inv(),
        ensures
            Self::progress(*old(self), *final(self)),
            final(self).measure() == old(self).measure(),
            !old(self).had_error ==> final(self).agrees(g::emit_op(old(self).cview(), op)),
    {
        self.emit_byte(op.to_byte());
    }

    /// Adds a constant and emits `Constant` with its index.
    fn emit_constant(&mut self, value: Value)
        requires
            old(self).inv(),
        ensures
            Self::progress(*old(self), *final(self)),
            final(self).measure() == old(self).measure(),
            !old(self).had_error ==> final(self).agrees(g::emit_const(old(self).cview(), value@)),
    {
        let ghost v = value@;
        let ghost st = self.cview();
        let idx = self.chunk.add_constant(value);
        proof {
            assert(self.chunk.constants@.map_values(|x: Value| x@) =~= st.consts.push(v));
            assert(self.cview() =~~= CState { consts: st.consts.push(v), ..st });
        }
        self.emit_byte(OpCode::Constant.to_byte());
        self.emit_byte(idx);
    }

    fn emit_return(&mut self)
        requires
            old(self).inv(),
        ensures
            Self::progress(*old(self), *final(self)),
            !old(self).had_error ==> final(self).agrees(g::emit_op(old(self).cview(), OpCode::Return)),
    {
        self.emit_byte(OpCode::Return.to_byte());
    }

    fn error_at_current(&mut self, msg: &str)
        requires
            old(self).panic_mode ==> old(self).had_error,
            !old(self).had_error ==> old(self).errors@.len() == 0,
            old(self).had_error ==> old(self).errors@.len() > 0,
        ensures
            final(self).panic_mode,
            final(self).scanner == old(self).scanner,
            final(self).current == old(self).current,
            final(self).previous == old(self).previous,
            final(self).chunk == old(self).chunk,
            final(self).party_roles == old(self).party_roles,
            final(self).event_names == old(self).event_names,
            final(self).term_names == old(self).term_names,
            final(self).obligation_names == old(self).obligation_names,
            final(self).remedy_names == old(self).remedy_names,
            final(self).had_error,
            forall|i: int| 0 <= i < old(self).errors@.len() ==> final(self).errors@[i] == old(self).errors@[i],
            final(self).errors@.len() >= old(self).errors@.len(),
            final(self).errors@.len() > 0,
            forall|i: int| old(self).errors@.len() <= i < final(self).errors@.len() ==> (#[trigger] final(self).errors@[i]) is Compile,
            !old(self).had_error ==> final(self).agrees(g::fail(old(self).cview(), old(self).current.span, msg@)),
    {
        let span = self.current.span;
        self.error_at(span, msg);
    }

    fn error_at_previous(&mut self, msg: &str)
        requires
            old(self).panic_mode ==> old(self).had_error,
            !old(self).had_error ==> old(self).errors@.len() == 0,
            old(self).had_error ==> old(self).errors@.len() > 0,
        ensures
            final(self).panic_mode,
            final(self).scanner == old(self).scanner,
            final(self).current == old(self).current,
            final(self).previous == old(self).previous,
            final(self).chunk == old(self).chunk,
            final(self).party_roles == old(self).party_roles,
            final(self).event_names == old(self).event_names,
            final(self).term_names == old(self).term_names,
            final(self).obligation_names == old(self).obligation_names,
            final(self).remedy_names == old(self).remedy_names,
            final(self).had_error,
            forall|i: int| 0 <= i < old(self).errors@.len() ==> final(self).errors@[i] == old(self).errors@[i],
            final(self).errors@.len() >= old(self).errors@.len(),
            final(self).errors@.len() > 0,
            forall|i: int| old(self).errors@.len() <= i < final(self).errors@.len() ==> (#[trigger] final(self).errors@[i]) is Compile,
            !old(self).had_error ==> final(self).agrees(g::fail(old(self).cview(), old(self).previous.span, msg@)),
    {
        let span = self.previous.span;
        self.error_at(span, msg);
    }

    /// Records an error unless one was recorded since the current
    /// declaration began.
    fn error_at(&mut self, span: Span, msg: &str)
        ensures
            final(self).scanner == old(self).scanner,
            final(self).current == old(self).current,
            final(self).previous == old(self).previous,
            final(self).chunk == old(self).chunk,
            final(self).party_roles == old(self).party_roles,
            final(self).event_names == old(self).event_names,
            final(self).term_names == old(self).term_names,
            final(self).obligation_names == old(self).obligation_names,
            final(self).remedy_names == old(self).remedy_names,
            old(self).panic_mode ==> final(self).errors == old(self).errors && final(self).had_error == old(self).had_error,
            !old(self).panic_mode ==> final(self).had_error && final(self).panic_mode,
            final(self).panic_mode,
            forall|i: int| 0 <= i < old(self).errors@.len() ==> final(self).errors@[i] == old(self).errors@[i],
            final(self).errors@.len() >= old(self).errors@.len(),
            !old(self).panic_mode ==> final(self).errors@.len() == old(self).errors@.len() + 1,
            !old(self).panic_mode ==> error_parts(final(self).errors@[old(self).errors@.len() as int]) == (span, msg@),
            forall|i: int| old(self).errors@.len() <= i < final(self).errors@.len() ==> (#[trigger] final(self).errors@[i]) is Compile,
    {
        if self.panic_mode {
            return;
        }
        self.panic_mode = true;
        self.had_error = true;
        self.errors.push(KontraError::compile(span, msg));
    }

    /// Declares `name` in `names`: a repeat is reported at the previous
    /// token as `Duplicate <kind> '<name>'`.
    fn declare(&mut self, which: u8, name: &str, kind: &str)
        requires
            old(self).inv(),
            which < 5,
        ensures
            Self::progress(*old(self), *final(self)),
            final(self).measure() == old(self).measure(),
            final(self).chunk == old(self).chunk,
            !old(self).had_error ==> final(self).agrees(
                ({
                    let st = old(self).cview();
                    let names = if which == 0 { st.parties } else if which == 1 { st.events } else if which == 2 {
                        st.terms
                    } else if which == 3 { st.obligations } else { st.remedies };
                    let (s1, n1) = g::declared(st, names, name@, kind@);
                    if which == 0 { CState { parties: n1, ..s1 } } else if which == 1 { CState { events: n1, ..s1 } }
                    else if which == 2 { CState { terms: n1, ..s1 } } else if which == 3 { CState { obligations: n1, ..s1 } }
                    else { CState { remedies: n1, ..s1 } }
                }),
            ),
    {
        let added = if which == 0 {
            insert_name(&mut self.party_roles, name)
        } else if which == 1 {
            insert_name(&mut self.event_names, name)
        } else if which == 2 {
            insert_name(&mut self.term_names, name)
        } else if which == 3 {
            insert_name(&mut self.obligation_names, name)
        } else {
            insert_name(&mut self.remedy_names, name)
        };
        if !added {
            let msg = duplicate_text(kind, name);
            self.error_at_previous(msg.as_str());
        }
    }

    /// `contract NAME { declarations }`.
    fn contract(&mut self)
        requires
            old(self).inv(),
        ensures
            Self::progress(*old(self), *final(self)),
            !old(self).had_error ==> final(self).agrees(g::contract_decl(old(self).src(), old(self).cview())),
    {
        proof {
            reveal(g::contract_decl);
            reveal(g::declarations);
            g::lemma_error_kept(self.scanner.src());
        }
        let ghost src = self.src();
        let ghost s0 = self.cview();
        let ghost e0 = self.had_error;
        self.consume(TokenType::Contract, "Expected 'contract'");
        let ghost s1 = g::consume(src, s0, TokenType::Contract, "Expected 'contract'"@);
        assert(!e0 ==> self.agrees(s1));
        self.consume(TokenType::Identifier, "Expected contract name");
        let ghost s2 = g::consume(src, s1, TokenType::Identifier, "Expected contract name"@);
        assert(!e0 ==> self.agrees(s2));
        self.consume(TokenType::LeftBrace, "Expected '{' after contract name");
        let ghost s3 = g::consume(src, s2, TokenType::LeftBrace, "Expected '{' after contract name"@);
        assert(!e0 ==> self.agrees(s3));
        let ghost target = g::declarations(src, s3);
        while !self.check(TokenType::RightBrace) && !self.check(TokenType::Eof)
            invariant
                Self::progress(*old(self), *self),
                self.src() == src,
                !e0 ==> if self.had_error {
                    target.err == Some(error_parts(self.errors@[0]))
                } else {
                    g::declarations(src, self.cview()) == target
                },
            decreases self.measure(),
        {
            proof {
                reveal(g::declarations);
                g::lemma_error_kept(self.scanner.src());
            }
            let ghost st = self.cview();
            let ghost before = *self;
            self.declaration();
            proof {
                self.lemma_measure();
                before.lemma_measure();
                if !e0 && !before.had_error {
                    let s1 = g::declaration(src, st);
                    assert(g::declarations(src, st) == if 0 <= g::measure(src, s1) < g::measure(src, st) {
                        g::declarations(src, s1)
                    } else {
                        s1
                    });
                    assert(self.agrees(s1));
                    if self.had_error {
                        assert(g::declarations(src, s1) == s1);
                        assert(target == s1);
                    } else {
                        assert(self.cview() == s1);
                        assert(g::measure(src, s1) < g::measure(src, st));
                    }
                }
            }
        }
        assert(!e0 ==> self.agrees(target));
        self.consume(TokenType::RightBrace, "Expected '}' after contract body");
    }

    /// One declaration; errors in it do not suppress errors in the next.
    fn declaration(&mut self)
        requires
            old(self).inv(),
            old(self).current.token_type != TokenType::Eof,
        ensures
            Self::progress(*old(self), *final(self)),
            final(self).measure() < old(self).measure(),
            !old(self).had_error ==> final(self).agrees(g::declaration(old(self).src(), old(self).cview())),
    {
        proof {
            reveal(g::declaration);
            g::lemma_error_kept(self.scanner.src());
        }
        match self.current.token_type {
            TokenType::Parties => self.parties_decl(),
            TokenType::Event => self.event_decl(),
            TokenType::Term => self.term_decl(),
            TokenType::Obligation => self.obligation_decl(),
            TokenType::Remedy => self.remedy_decl(),
            _ => {
                self.error_at_current("Expected declaration (parties, event, term, obligation, or remedy)");
                self.advance();
            },
        }
        self.panic_mode = false;
    }

    /// One pair `role: "name"` of a `parties` block.
    fn party_pair(&mut self)
        requires
            old(self).inv(),
        ensures
            Self::progress(*old(self), *final(self)),
            !final(self).had_error ==> final(self).measure() < old(self).measure(),
            !old(self).had_error ==> final(self).agrees(g::party_pair(old(self).src(), old(self).cview())),
    {
        proof {
            reveal(g::party_pair);
            g::lemma_error_kept(self.scanner.src());
        }
        let ghost src = self.src();
        let ghost s0 = self.cview();
        let ghost e0 = self.had_error;
        self.consume(TokenType::Identifier, "Expected party role");
        let ghost s1 = g::consume(src, s0, TokenType::Identifier, "Expected party role"@);
        assert(!e0 ==> self.agrees(s1));
        let role = self.previous.lexeme.clone();
        self.declare(0, role.as_str(), "party role");
        let ghost s3 = {
            let (s2, names) = g::declared(s1, s1.parties, s1.prev.lexeme, "party role"@);
            CState { parties: names, ..s2 }
        };
        assert(!e0 ==> self.agrees(s3));
        self.consume(TokenType::Colon, "Expected ':' after party role");
        let ghost s4 = g::consume(src, s3, TokenType::Colon, "Expected ':' after party role"@);
        assert(!e0 ==> self.agrees(s4));
        self.consume(TokenType::StringLiteral, "Expected party name string");
        let ghost s5 = g::consume(src, s4, TokenType::StringLiteral, "Expected party name string"@);
        assert(!e0 ==> self.agrees(s5));
        let name = strip_quotes(self.previous.lexeme.as_str());
        self.emit_constant(Value::Identifier(role));
        self.emit_constant(Value::Str(name));
        self.emit_op(OpCode::DefineParty);
    }

    /// `parties { role: "name" ... }`: for each pair, the role identifier,
    /// the name string, and `DefineParty`.
    fn parties_decl(&mut self)
        requires
            old(self).inv(),
            old(self).current.token_type == TokenType::Parties,
        ensures
            Self::progress(*old(self), *final(self)),
            final(self).measure() < old(self).measure(),
            !old(self).had_error ==> final(self).agrees(g::parties_decl(old(self).src(), old(self).cview())),
    {
        proof {
            reveal(g::parties_decl);
            reveal(g::party_pairs);
            g::lemma_error_kept(self.scanner.src());
        }
        let ghost src = self.src();
        let ghost s0 = self.cview();
        let ghost e0 = self.had_error;
        self.consume(TokenType::Parties, "Expected 'parties'");
        let ghost s1 = g::consume(src, s0, TokenType::Parties, "Expected 'parties'"@);
        assert(!e0 ==> self.agrees(s1));
        self.consume(TokenType::LeftBrace, "Expected '{' after 'parties'");
        let ghost s2 = g::consume(src, s1, TokenType::LeftBrace, "Expected '{' after 'parties'"@);
        assert(!e0 ==> self.agrees(s2));
        let ghost target = g::party_pairs(src, s2);
        loop
            invariant
                Self::progress(*old(self), *self),
                self.measure() < old(self).measure(),
                self.src() == src,
                !e0 ==> if self.had_error {
                    target.err == Some(error_parts(self.errors@[0]))
                } else {
                    g::party_pairs(src, self.cview()) == target
                },
            ensures
                Self::progress(*old(self), *self),
                self.measure() < old(self).measure(),
                !e0 ==> self.agrees(target),
            decreases self.measure(),
        {
            proof {
                reveal(g::party_pairs);
                g::lemma_error_kept(self.scanner.src());
            }
            if self.check(TokenType::RightBrace) || self.check(TokenType::Eof) {
                break;
            }
            let ghost before = *self;
            let pos0 = self.scanner.position();
            let ghost st = self.cview();
            self.party_pair();
            proof {
                self.lemma_measure();
                before.lemma_measure();
                if !e0 && !before.had_error {
                    let s1 = g::party_pair(src, st);
                    assert(g::party_pairs(src, st) == if 0 <= g::measure(src, s1) < g::measure(src, st) {
                        g::party_pairs(src, s1)
                    } else {
                        s1
                    });
                    assert(self.agrees(s1));
                    if self.had_error {
                        assert(g::party_pairs(src, s1) == s1);
                        assert(target == s1);
                    } else {
                        assert(self.cview() == s1);
                        assert(g::measure(src, s1) < g::measure(src, st));
                    }
                }
            }
            // A pair that consumed nothing would be met again forever: stop
            // at the error already reported.
            if self.scanner.position() == pos0 && !self.check(TokenType::Eof) {
                assert(self.had_error);
                break;
            }
            proof {
                before.scanner.lemma_wf();
                self.scanner.lemma_wf();
            }
        }
        self.consume(TokenType::RightBrace, "Expected '}' after parties block");
    }

    /// `event NAME = date("YYYY-MM-DD")` or `event NAME = triggered_by(ROLE)`:
    /// the name, the date string or role identifier, and `DefineEvent`.
    #[verifier::rlimit(40)]
    fn event_decl(&mut self)
        requires
            old(self).inv(),
            old(self).current.token_type == TokenType::Event,
        ensures
            Self::progress(*old(self), *final(self)),
            final(self).measure() < old(self).measure(),
            !old(self).had_error ==> final(self).agrees(g::event_decl(old(self).src(), old(self).cview())),
    {
        proof {
            reveal(g::event_decl);
            g::lemma_error_kept(self.scanner.src());
        }
        let ghost src = self.src();
        let ghost s0 = self.cview();
        let ghost e0 = self.had_error;
        self.consume(TokenType::Event, "Expected 'event'");
        let ghost s1 = g::consume(src, s0, TokenType::Event, "Expected 'event'"@);
        assert(!e0 ==> self.agrees(s1));
        self.consume(TokenType::Identifier, "Expected event name");
        let ghost s2 = g::consume(src, s1, TokenType::Identifier, "Expected event name"@);
        assert(!e0 ==> self.agrees(s2));
        let event_name = self.previous.lexeme.clone();
        self.declare(1, event_name.as_str(), "event name");
        let ghost s3 = {
            let (s, names) = g::declared(s2, s2.events, s2.prev.lexeme, "event name"@);
            CState { events: names, ..s }
        };
        assert(!e0 ==> self.agrees(s3));
        self.consume(TokenType::Equal, "Expected '=' after event name");
        let ghost s4 = g::consume(src, s3, TokenType::Equal, "Expected '=' after event name"@);
        assert(!e0 ==> self.agrees(s4));
        if self.match_token(TokenType::Date) {
            let ghost s5 = g::skip(src, s4, TokenType::Date);
            assert(!e0 ==> self.agrees(s5));
            self.consume(TokenType::LeftParen, "Expected '(' after 'date'");
            let ghost s6 = g::consume(src, s5, TokenType::LeftParen, "Expected '(' after 'date'"@);
            assert(!e0 ==> self.agrees(s6));
            self.consume(TokenType::StringLiteral, "Expected date string inside date(...)");
            let ghost s7 = g::consume(src, s6, TokenType::StringLiteral, "Expected date string inside date(...)"@);
            assert(!e0 ==> self.agrees(s7));
            let date_string = strip_quotes(self.previous.lexeme.as_str());
            self.consume(TokenType::RightParen, "Expected ')' after date string");
            let ghost s8 = g::consume(src, s7, TokenType::RightParen, "Expected ')' after date string"@);
            assert(!e0 ==> self.agrees(s8));
            self.emit_constant(Value::Identifier(event_name));
            self.emit_constant(Value::Str(date_string));
            self.emit_op(OpCode::DefineEvent);
            return;
        }
        if self.match_token(TokenType::TriggeredBy) {
            let ghost s5 = g::skip(src, s4, TokenType::TriggeredBy);
            assert(!e0 ==> self.agrees(s5));
            self.consume(TokenType::LeftParen, "Expected '(' after 'triggered_by'");
            let ghost s6 = g::consume(src, s5, TokenType::LeftParen, "Expected '(' after 'triggered_by'"@);
            assert(!e0 ==> self.agrees(s6));
            self.consume(TokenType::Identifier, "Expected party identifier inside triggered_by(...)");
            let ghost s7 = g::consume(src, s6, TokenType::Identifier, "Expected party identifier inside triggered_by(...)"@);
            assert(!e0 ==> self.agrees(s7));
            let party_role = self.previous.lexeme.clone();
            self.consume(TokenType::RightParen, "Expected ')' after triggered_by argument");
            let ghost s8 = g::consume(src, s7, TokenType::RightParen, "Expected ')' after triggered_by argument"@);
            assert(!e0 ==> self.agrees(s8));
            self.emit_constant(Value::Identifier(event_name));
            self.emit_constant(Value::Identifier(party_role));
            self.emit_op(OpCode::DefineEvent);
            return;
        }
        self.error_at_current("Expected event expression: date(\"...\") or triggered_by(identifier)");
        if !self.check(TokenType::Eof) {
            self.advance();
        }
    }

    /// `calendar_days` or `business_days`; anything else is reported.
    fn duration_unit(&mut self) -> (res: Option<&'static str>)
        requires
            old(self).inv(),
        ensures
            Self::progress(*old(self), *final(self)),
            final(self).chunk == old(self).chunk,
            res is None ==> final(self).had_error,
            res is Some ==> final(self).measure() < old(self).measure(),
            !old(self).had_error ==> final(self).agrees(g::duration_unit(old(self).src(), old(self).cview()).0),
            !old(self).had_error && res is Some ==> res->0@ == g::duration_unit(old(self).src(), old(self).cview()).1,
    {
        proof {
            reveal(g::duration_unit);
            g::lemma_error_kept(self.scanner.src());
        }
        if self.match_token(TokenType::CalendarDays) {
            Some("calendar_days")
        } else if self.match_token(TokenType::BusinessDays) {
            Some("business_days")
        } else {
            self.error_at_current("Expected duration unit: 'calendar_days' or 'business_days'");
            None
        }
    }

    /// The anchor of a term: an identifier, or `breach_of(NAME)`.
    fn term_anchor(&mut self) -> (res: Option<String>)
        requires
            old(self).inv(),
        ensures
            Self::progress(*old(self), *final(self)),
            res is None ==> final(self).had_error,
            !old(self).had_error ==> final(self).agrees(g::term_anchor(old(self).src(), old(self).cview()).0),
            !old(self).had_error && !final(self).had_error && res is Some ==> res->0@ == g::term_anchor(old(self).src(), old(self).cview()).1,
    {
        proof {
            reveal(g::term_anchor);
            g::lemma_error_kept(self.scanner.src());
        }
        let ghost src = self.src();
        let ghost s0 = self.cview();
        if self.match_token(TokenType::Identifier) {
            return Some(self.previous.lexeme.clone());
        }
        if self.match_token(TokenType::BreachOf) {
            let ghost s1 = g::advance(src, s0);
            let ghost e1 = self.had_error;
            self.consume(TokenType::LeftParen, "Expected '(' after 'breach_of'");
            let ghost s2 = g::consume(src, s1, TokenType::LeftParen, "Expected '(' after 'breach_of'"@);
            assert(!e1 ==> self.agrees(s2));
            self.consume(TokenType::Identifier, "Expected identifier inside breach_of(...)");
            let ghost s3 = g::consume(src, s2, TokenType::Identifier, "Expected identifier inside breach_of(...)"@);
            assert(!e1 ==> self.agrees(s3));
            let breached_name = self.previous.lexeme.clone();
            self.consume(TokenType::RightParen, "Expected ')' after breach_of argument");
            return Some(breach_of_text(breached_name.as_str()));
        }
        self.error_at_current("Expected term anchor identifier or breach_of(identifier)");
        None
    }

    /// `term NAME = N (calendar_days|business_days) from ANCHOR`, where the
    /// anchor is an identifier or `breach_of(NAME)`: the name, the amount,
    /// the unit, the anchor, and `DefineTerm`.
    fn term_decl(&mut self)
        requires
            old(self).inv(),
            old(self).current.token_type == TokenType::Term,
        ensures
            Self::progress(*old(self), *final(self)),
            final(self).measure() < old(self).measure(),
            !old(self).had_error ==> final(self).agrees(g::term_decl(old(self).src(), old(self).cview())),
    {
        proof {
            reveal(g::term_decl);
            g::lemma_error_kept(self.scanner.src());
        }
        let ghost src = self.src();
        let ghost s0 = self.cview();
        let ghost e0 = self.had_error;
        self.consume(TokenType::Term, "Expected 'term'");
        let ghost s1 = g::consume(src, s0, TokenType::Term, "Expected 'term'"@);
        assert(!e0 ==> self.agrees(s1));
        self.consume(TokenType::Identifier, "Expected term name");
        let ghost s2 = g::consume(src, s1, TokenType::Identifier, "Expected term name"@);
        assert(!e0 ==> self.agrees(s2));
        let term_name = self.previous.lexeme.clone();
        self.declare(2, term_name.as_str(), "term name");
        let ghost s3 = {
            let (s, names) = g::declared(s2, s2.terms, s2.prev.lexeme, "term name"@);
            CState { terms: names, ..s }
        };
        assert(!e0 ==> self.agrees(s3));
        self.consume(TokenType::Equal, "Expected '=' after term name");
        let ghost s4 = g::consume(src, s3, TokenType::Equal, "Expected '=' after term name"@);
        assert(!e0 ==> self.agrees(s4));
        self.consume(TokenType::Number, "Expected duration number");
        let ghost s5 = g::consume(src, s4, TokenType::Number, "Expected duration number"@);
        assert(!e0 ==> self.agrees(s5));
        let amount = match parse_number(self.previous.lexeme.as_str()) {
            Some(n) => n,
            None => {
                self.error_at_previous("Invalid duration number");
                return;
            },
        };
        let ghost s6 = g::duration_unit(src, s5).0;
        let unit = match self.duration_unit() {
            Some(u) => u,
            None => {
                if !self.check(TokenType::Eof) {
                    self.advance();
                }
                return;
            },
        };
        assert(!e0 ==> self.agrees(s6));
        self.consume(TokenType::From, "Expected 'from' after term duration");
        let ghost s7 = g::consume(src, s6, TokenType::From, "Expected 'from' after term duration"@);
        assert(!e0 ==> self.agrees(s7));
        let anchor = match self.term_anchor() {
            Some(a) => a,
            None => {
                if !self.check(TokenType::Eof) {
                    self.advance();
                }
                return;
            },
        };
        self.emit_constant(Value::Identifier(term_name));
        self.emit_constant(Value::Num(amount));
        self.emit_constant(Value::Str(owned(unit)));
        self.emit_constant(Value::Identifier(anchor));
        self.emit_op(OpCode::DefineTerm);
    }

    /// `obligation NAME { fields }`: the name, `BeginObligation`, the
    /// fields, `EndObligation`.
    fn obligation_decl(&mut self)
        requires
            old(self).inv(),
            old(self).current.token_type == TokenType::Obligation,
        ensures
            Self::progress(*old(self), *final(self)),
            final(self).measure() < old(self).measure(),
            !old(self).had_error ==> final(self).agrees(g::obligation_decl(old(self).src(), old(self).cview())),
    {
        proof {
            reveal(g::obligation_decl);
            g::lemma_error_kept(self.scanner.src());
        }
        let ghost src = self.src();
        let ghost s0 = self.cview();
        let ghost e0 = self.had_error;
        self.consume(TokenType::Obligation, "Expected 'obligation'");
        let ghost s1 = g::consume(src, s0, TokenType::Obligation, "Expected 'obligation'"@);
        assert(!e0 ==> self.agrees(s1));
        self.consume(TokenType::Identifier, "Expected obligation name");
        let ghost s2 = g::consume(src, s1, TokenType::Identifier, "Expected obligation name"@);
        assert(!e0 ==> self.agrees(s2));
        let obligation_name = self.previous.lexeme.clone();
        self.declare(3, obligation_name.as_str(), "obligation name");
        let ghost s3 = {
            let (s, names) = g::declared(s2, s2.obligations, s2.prev.lexeme, "obligation name"@);
            CState { obligations: names, ..s }
        };
        assert(!e0 ==> self.agrees(s3));
        self.consume(TokenType::LeftBrace, "Expected '{' after obligation name");
        let ghost s4 = g::consume(src, s3, TokenType::LeftBrace, "Expected '{' after obligation name"@);
        assert(!e0 ==> self.agrees(s4));
        self.emit_constant(Value::Identifier(obligation_name));
        self.emit_op(OpCode::BeginObligation);
        let ghost s5 = g::emit_op(g::emit_const(s4, ValueView::Identifier(s2.prev.lexeme)), OpCode::BeginObligation);
        assert(!e0 ==> self.agrees(s5));
        self.fields();
        let ghost s6 = g::fields(src, s5);
        assert(!e0 ==> self.agrees(s6));
        self.consume(TokenType::RightBrace, "Expected '}' after obligation block");
        self.emit_op(OpCode::EndObligation);
    }

    /// The fields of an obligation (or remedy or phase), up to its `}`.
    fn fields(&mut self)
        requires
            old(self).inv(),
        ensures
            Self::progress(*old(self), *final(self)),
            !old(self).had_error ==> final(self).agrees(g::fields(old(self).src(), old(self).cview())),
    {
        proof {
            reveal(g::fields);
            g::lemma_error_kept(self.scanner.src());
        }
        let ghost src = self.src();
        let ghost e0 = self.had_error;
        let ghost target = g::fields(src, self.cview());
        while !self.check(TokenType::RightBrace) && !self.check(TokenType::Eof)
            invariant
                Self::progress(*old(self), *self),
                self.src() == src,
                !e0 ==> if self.had_error {
                    target.err == Some(error_parts(self.errors@[0]))
                } else {
                    g::fields(src, self.cview()) == target
                },
            decreases self.measure(),
        {
            proof {
                reveal(g::fields);
                g::lemma_error_kept(self.scanner.src());
            }
            let ghost st = self.cview();
            let ghost before = *self;
            self.field();
            proof {
                self.lemma_measure();
                before.lemma_measure();
                if !e0 && !before.had_error {
                    let s1 = g::field(src, st);
                    assert(g::fields(src, st) == if 0 <= g::measure(src, s1) < g::measure(src, st) {
                        g::fields(src, s1)
                    } else {
                        s1
                    });
                    assert(self.agrees(s1));
                    if self.had_error {
                        assert(g::fields(src, s1) == s1);
                        assert(target == s1);
                    } else {
                        assert(self.cview() == s1);
                        assert(g::measure(src, s1) < g::measure(src, st));
                    }
                }
            }
        }
    }

    /// One field: `party`, `action`, `due` or `condition`.
    fn field(&mut self)
        requires
            old(self).inv(),
            old(self).current.token_type != TokenType::Eof,
        ensures
            Self::progress(*old(self), *final(self)),
            final(self).measure() < old(self).measure(),
            !old(self).had_error ==> final(self).agrees(g::field(old(self).src(), old(self).cview())),
    {
        proof {
            reveal(g::field);
            g::lemma_error_kept(self.scanner.src());
        }
        match self.current.token_type {
            TokenType::Party => self.obligation_party_field(),
            TokenType::Action => self.obligation_action_field(),
            TokenType::Due => self.obligation_due_field(),
            TokenType::Condition => self.obligation_condition_field(),
            _ => {
                self.error_at_current("Expected obligation field (party, action, due, or condition)");
                self.advance();
            },
        }
    }

    fn obligation_party_field(&mut self)
        requires
            old(self).inv(),
            old(self).current.token_type == TokenType::Party,
        ensures
            Self::progress(*old(self), *final(self)),
            final(self).measure() < old(self).measure(),
            !old(self).had_error ==> final(self).agrees(g::party_field(old(self).src(), old(self).cview())),
    {
        proof {
            reveal(g::party_field);
            g::lemma_error_kept(self.scanner.src());
        }
        let ghost src = self.src();
        let ghost s0 = self.cview();
        let ghost e0 = self.had_error;
        self.consume(TokenType::Party, "Expected 'party'");
        let ghost s1 = g::consume(src, s0, TokenType::Party, "Expected 'party'"@);
        assert(!e0 ==> self.agrees(s1));
        self.consume(TokenType::Colon, "Expected ':' after 'party'");
        let ghost s2 = g::consume(src, s1, TokenType::Colon, "Expected ':' after 'party'"@);
        assert(!e0 ==> self.agrees(s2));
        self.consume(TokenType::Identifier, "Expected party role identifier");
        let party_role = self.previous.lexeme.clone();
        self.emit_constant(Value::Identifier(party_role));
        self.emit_op(OpCode::SetParty);
    }

    fn obligation_action_field(&mut self)
        requires
            old(self).inv(),
            old(self).current.token_type == TokenType::Action,
        ensures
            Self::progress(*old(self), *final(self)),
            final(self).measure() < old(self).measure(),
            !old(self).had_error ==> final(self).agrees(g::action_field(old(self).src(), old(self).cview())),
    {
        proof {
            reveal(g::action_field);
            g::lemma_error_kept(self.scanner.src());
        }
        let ghost src = self.src();
        let ghost s0 = self.cview();
        let ghost e0 = self.had_error;
        self.consume(TokenType::Action, "Expected 'action'");
        let ghost s1 = g::consume(src, s0, TokenType::Action, "Expected 'action'"@);
        assert(!e0 ==> self.agrees(s1));
        self.consume(TokenType::Colon, "Expected ':' after 'action'");
        let ghost s2 = g::consume(src, s1, TokenType::Colon, "Expected ':' after 'action'"@);
        assert(!e0 ==> self.agrees(s2));
        self.consume(TokenType::StringLiteral, "Expected action string");
        let action = strip_quotes(self.previous.lexeme.as_str());
        self.emit_constant(Value::Str(action));
        self.emit_op(OpCode::SetAction);
    }

    /// The inline due `N unit from ANCHOR`, after its number.
    fn inline_due(&mut self)
        requires
            old(self).inv(),
        ensures
            Self::progress(*old(self), *final(self)),
            !old(self).had_error ==> final(self).agrees(g::inline_due(old(self).src(), old(self).cview())),
    {
        proof {
            reveal(g::inline_due);
            g::lemma_error_kept(self.scanner.src());
        }
        let ghost src = self.src();
        let ghost s0 = self.cview();
        let ghost e0 = self.had_error;
        let amount = self.previous.lexeme.clone();
        let unit = match self.duration_unit() {
            Some(u) => u,
            None => {
                return;
            },
        };
        let ghost s1 = g::duration_unit(src, s0).0;
        assert(!e0 ==> self.agrees(s1));
        self.consume(TokenType::From, "Expected 'from' in inline due expression");
        let ghost s2 = g::consume(src, s1, TokenType::From, "Expected 'from' in inline due expression"@);
        assert(!e0 ==> self.agrees(s2));
        self.consume(TokenType::Identifier, "Expected anchor identifier after 'from' in due expression");
        let anchor = self.previous.lexeme.clone();
        let mut raw_due = owned(amount.as_str());
        push_char(&mut raw_due, ' ');
        append_str(&mut raw_due, unit);
        append_str(&mut raw_due, " from ");
        append_str(&mut raw_due, anchor.as_str());
        proof {
            assert(raw_due@ =~= amount@ + " "@ + unit@ + " from "@ + anchor@) by {
                reveal_strlit(" ");
            }
        }
        self.emit_constant(Value::Str(raw_due));
        self.emit_op(OpCode::SetDue);
    }

    /// `due: TERM` or `due: N unit from ANCHOR` (the latter as the string
    /// `"N unit from ANCHOR"`), then `SetDue`.
    fn obligation_due_field(&mut self)
        requires
            old(self).inv(),
            old(self).current.token_type == TokenType::Due,
        ensures
            Self::progress(*old(self), *final(self)),
            final(self).measure() < old(self).measure(),
            !old(self).had_error ==> final(self).agrees(g::due_field(old(self).src(), old(self).cview())),
    {
        proof {
            reveal(g::due_field);
            g::lemma_error_kept(self.scanner.src());
        }
        let ghost src = self.src();
        let ghost s0 = self.cview();
        let ghost e0 = self.had_error;
        self.consume(TokenType::Due, "Expected 'due'");
        let ghost s1 = g::consume(src, s0, TokenType::Due, "Expected 'due'"@);
        assert(!e0 ==> self.agrees(s1));
        self.consume(TokenType::Colon, "Expected ':' after 'due'");
        let ghost s2 = g::consume(src, s1, TokenType::Colon, "Expected ':' after 'due'"@);
        assert(!e0 ==> self.agrees(s2));
        if self.match_token(TokenType::Identifier) {
            let term_ref = self.previous.lexeme.clone();
            self.emit_constant(Value::Identifier(term_ref));
            self.emit_op(OpCode::SetDue);
            return;
        }
        if self.match_token(TokenType::Number) {
            self.inline_due();
            return;
        }
        self.error_at_current("Expected due value: term identifier or inline 'NUMBER unit from IDENTIFIER'");
    }

    fn obligation_condition_field(&mut self)
        requires
            old(self).inv(),
            old(self).current.token_type == TokenType::Condition,
        ensures
            Self::progress(*old(self), *final(self)),
            final(self).measure() < old(self).measure(),
            !old(self).had_error ==> final(self).agrees(g::condition_field(old(self).src(), old(self).cview())),
    {
        proof {
            reveal(g::condition_field);
            g::lemma_error_kept(self.scanner.src());
        }
        let ghost src = self.src();
        let ghost s0 = self.cview();
        let ghost e0 = self.had_error;
        self.consume(TokenType::Condition, "Expected 'condition'");
        let ghost s1 = g::consume(src, s0, TokenType::Condition, "Expected 'condition'"@);
        assert(!e0 ==> self.agrees(s1));
        self.consume(TokenType::Colon, "Expected ':' after 'condition'");
        let ghost s2 = g::consume(src, s1, TokenType::Colon, "Expected ':' after 'condition'"@);
        assert(!e0 ==> self.agrees(s2));
        if self.condition_expr() {
            self.emit_op(OpCode::SetCondition);
        }
    }

    /// A condition: `or` of `and`s of atoms, `and` binding tighter; each atom
    /// emits its argument and its opcode, each `and` / `or` its opcode after
    /// both operands.
    fn condition_expr(&mut self) -> (ok: bool)
        requires
            old(self).inv(),
        ensures
            Self::progress(*old(self), *final(self)),
            !ok ==> final(self).had_error,
            !old(self).had_error ==> final(self).agrees(g::cond_or(old(self).src(), old(self).cview())),
    {
        proof {
            g::lemma_error_kept(self.scanner.src());
        }
        self.condition_or_expr()
    }

    fn condition_or_expr(&mut self) -> (ok: bool)
        requires
            old(self).inv(),
        ensures
            Self::progress(*old(self), *final(self)),
            !ok ==> final(self).had_error,
            !old(self).had_error ==> final(self).agrees(g::cond_or(old(self).src(), old(self).cview())),
        decreases old(self).measure(), 4int,
    {
        proof {
            reveal(g::cond_or);
            reveal(g::cond_or_rest);
            reveal(g::cond_and);
            reveal(g::cond_and_rest);
            reveal(g::cond_primary);
            g::lemma_error_kept(self.scanner.src());
        }
        let ghost src = self.src();
        let ghost s0 = self.cview();
        let ghost e0 = self.had_error;
        let ghost target = g::cond_or(src, s0);
        proof {
            old(self).lemma_measure();
        }
        let first = self.condition_and_expr();
        proof {
            self.lemma_measure();
            if !e0 {
                let s1 = g::cond_and(src, s0);
                assert(self.agrees(s1));
                if self.had_error {
                    assert(target == s1);
                } else {
                    assert(self.cview() == s1);
                    assert(target == g::cond_or_rest(src, s1));
                }
            }
        }
        if !first {
            return false;
        }
        loop
            invariant
                Self::progress(*old(self), *self),
                self.src() == src,
                src == old(self).src(),
                e0 == old(self).had_error,
                target == g::cond_or(old(self).src(), old(self).cview()),
                !e0 ==> if self.had_error {
                    target.err == Some(error_parts(self.errors@[0]))
                } else {
                    g::cond_or_rest(src, self.cview()) == target
                },
            ensures
                Self::progress(*old(self), *self),
                !e0 ==> self.agrees(target),
            decreases self.measure(),
        {
            proof {
                reveal(g::cond_or);
                reveal(g::cond_or_rest);
                reveal(g::cond_and);
                reveal(g::cond_and_rest);
                reveal(g::cond_primary);
                g::lemma_error_kept(self.scanner.src());
            }
            let ghost st = self.cview();
            let ghost before = *self;
            proof {
                before.lemma_measure();
            }
            if !self.match_token(TokenType::Or) {
                break;
            }
            let ghost mid = *self;
            proof {
                self.lemma_measure();
            }
            let ok = self.condition_and_expr();
            let ghost after = *self;
            if !ok {
                self.error_at_current("Expected condition expression after 'or'");
            } else {
                self.emit_op(OpCode::ConditionOr);
            }
            proof {
                self.lemma_measure();
                if !e0 && !before.had_error {
                    let s1 = g::advance(src, st);
                    assert(mid.agrees(s1));
                    let s2 = g::emit_op(g::cond_and(src, s1), OpCode::ConditionOr);
                    assert(target == if 0 <= g::measure(src, s1) < g::measure(src, st) {
                        if 0 <= g::measure(src, s2) < g::measure(src, st) {
                            g::cond_or_rest(src, s2)
                        } else {
                            s2
                        }
                    } else {
                        s1
                    });
                    if mid.had_error {
                        assert(g::cond_and(src, s1) == s1);
                        assert(s2 == s1);
                        assert(g::cond_or_rest(src, s1) == s1);
                        assert(target == s1);
                    } else {
                        assert(mid.cview() == s1);
                        assert(g::measure(src, s1) < g::measure(src, st));
                        let s15 = g::cond_and(src, s1);
                        assert(after.agrees(s15));
                        if after.had_error {
                            assert(s2 == s15);
                            assert(g::cond_or_rest(src, s2) == s2);
                            assert(target == s2);
                        } else {
                            assert(self.agrees(s2));
                            assert(self.cview() == s2);
                            assert(g::measure(src, s2) < g::measure(src, st));
                        }
                    }
                }
            }
            if !ok {
                proof {
                    if !e0 {
                        assert(self.errors@[0] == after.errors@[0]);
                        assert(target.err == Some(error_parts(self.errors@[0])));
                    }
                }
                return false;
            }
        }
        true
    }

    fn condition_and_expr(&mut self) -> (ok: bool)
        requires
            old(self).inv(),
        ensures
            Self::progress(*old(self), *final(self)),
            !ok ==> final(self).had_error,
            !old(self).had_error ==> final(self).agrees(g::cond_and(old(self).src(), old(self).cview())),
        decreases old(self).measure(), 2int,
    {
        proof {
            reveal(g::cond_or);
            reveal(g::cond_or_rest);
            reveal(g::cond_and);
            reveal(g::cond_and_rest);
            reveal(g::cond_primary);
            g::lemma_error_kept(self.scanner.src());
        }
        let ghost src = self.src();
        let ghost s0 = self.cview();
        let ghost e0 = self.had_error;
        let ghost target = g::cond_and(src, s0);
        proof {
            old(self).lemma_measure();
        }
        let first = self.condition_primary();
        proof {
            self.lemma_measure();
            if !e0 {
                let s1 = g::cond_primary(src, s0);
                assert(self.agrees(s1));
                if self.had_error {
                    assert(target == s1);
                } else {
                    assert(self.cview() == s1);
                    assert(target == g::cond_and_rest(src, s1));
                }
            }
        }
        if !first {
            return false;
        }
        loop
            invariant
                Self::progress(*old(self), *self),
                self.src() == src,
                src == old(self).src(),
                e0 == old(self).had_error,
                target == g::cond_and(old(self).src(), old(self).cview()),
                !e0 ==> if self.had_error {
                    target.err == Some(error_parts(self.errors@[0]))
                } else {
                    g::cond_and_rest(src, self.cview()) == target
                },
            ensures
                Self::progress(*old(self), *self),
                !e0 ==> self.agrees(target),
            decreases self.measure(),
        {
            proof {
                reveal(g::cond_or);
                reveal(g::cond_or_rest);
                reveal(g::cond_and);
                reveal(g::cond_and_rest);
                reveal(g::cond_primary);
                g::lemma_error_kept(self.scanner.src());
            }
            let ghost st = self.cview();
            let ghost before = *self;
            proof {
                before.lemma_measure();
            }
            if !self.match_token(TokenType::And) {
                break;
            }
            let ghost mid = *self;
            proof {
                self.lemma_measure();
            }
            let ok = self.condition_primary();
            let ghost after = *self;
            if !ok {
                self.error_at_current("Expected condition expression after 'and'");
            } else {
                self.emit_op(OpCode::ConditionAnd);
            }
            proof {
                self.lemma_measure();
                if !e0 && !before.had_error {
                    let s1 = g::advance(src, st);
                    assert(mid.agrees(s1));
                    let s2 = g::emit_op(g::cond_primary(src, s1), OpCode::ConditionAnd);
                    assert(target == if 0 <= g::measure(src, s1) < g::measure(src, st) {
                        if 0 <= g::measure(src, s2) < g::measure(src, st) {
                            g::cond_and_rest(src, s2)
                        } else {
                            s2
                        }
                    } else {
                        s1
                    });
                    if mid.had_error {
                        assert(g::cond_primary(src, s1) == s1);
                        assert(s2 == s1);
                        assert(g::cond_and_rest(src, s1) == s1);
                        assert(target == s1);
                    } else {
                        assert(mid.cview() == s1);
                        assert(g::measure(src, s1) < g::measure(src, st));
                        let s15 = g::cond_primary(src, s1);
                        assert(after.agrees(s15));
                        if after.had_error {
                            assert(s2 == s15);
                            assert(g::cond_and_rest(src, s2) == s2);
                            assert(target == s2);
                        } else {
                            assert(self.agrees(s2));
                            assert(self.cview() == s2);
                            assert(g::measure(src, s2) < g::measure(src, st));
                        }
                    }
                }
            }
            if !ok {
                proof {
                    if !e0 {
                        assert(self.errors@[0] == after.errors@[0]);
                        assert(target.err == Some(error_parts(self.errors@[0])));
                    }
                }
                return false;
            }
        }
        true
    }

    fn condition_primary(&mut self) -> (ok: bool)
        requires
            old(self).inv(),
        ensures
            Self::progress(*old(self), *final(self)),
            !ok ==> final(self).had_error,
            !old(self).had_error ==> final(self).agrees(g::cond_primary(old(self).src(), old(self).cview())),
        decreases old(self).measure(), 0int,
    {
        proof {
            reveal(g::cond_or);
            reveal(g::cond_or_rest);
            reveal(g::cond_and);
            reveal(g::cond_and_rest);
            reveal(g::cond_primary);
            g::lemma_error_kept(self.scanner.src());
        }
        let ghost src = self.src();
        let ghost s0 = self.cview();
        let ghost e0 = self.had_error;
        proof {
            old(self).lemma_measure();
        }
        if self.match_token(TokenType::LeftParen) {
            let ghost mid = *self;
            proof {
                self.lemma_measure();
            }
            let ok = self.condition_or_expr();
            let ghost after = *self;
            if ok {
                self.consume(TokenType::RightParen, "Expected ')' after grouped condition expression");
            }
            proof {
                if !e0 {
                    let s1 = g::advance(src, s0);
                    assert(mid.agrees(s1));
                    let s2 = g::cond_or(src, s1);
                    let s3 = g::consume(src, s2, TokenType::RightParen, "Expected ')' after grouped condition expression"@);
                    assert(g::cond_primary(src, s0) == if 0 <= g::measure(src, s1) < g::measure(src, s0) {
                        s3
                    } else {
                        s1
                    });
                    if mid.had_error {
                        assert(s2 == s1);
                        assert(s3 == s1);
                    } else {
                        assert(mid.cview() == s1);
                        assert(after.agrees(s2));
                        if after.had_error {
                            assert(s3 == s2);
                        }
                    }
                }
            }
            return ok;
        }
        self.condition_atom()
    }

    /// An atom `KIND(ARG)` whose keyword is the current token.
    fn atom_with(&mut self, open_msg: &str, arg_msg: &str, close_msg: &str, op: OpCode)
        requires
            old(self).inv(),
        ensures
            Self::progress(*old(self), *final(self)),
            !old(self).had_error ==> final(self).agrees(
                g::atom_with(old(self).src(), old(self).cview(), open_msg@, arg_msg@, close_msg@, op),
            ),
    {
        proof {
            reveal(g::atom_with);
            g::lemma_error_kept(self.scanner.src());
        }
        let ghost src = self.src();
        let ghost s0 = self.cview();
        let ghost e0 = self.had_error;
        self.advance();
        let ghost s1 = g::advance(src, s0);
        assert(!e0 ==> self.agrees(s1));
        self.consume(TokenType::LeftParen, open_msg);
        let ghost s2 = g::consume(src, s1, TokenType::LeftParen, open_msg@);
        assert(!e0 ==> self.agrees(s2));
        self.consume(TokenType::Identifier, arg_msg);
        let ghost s3 = g::consume(src, s2, TokenType::Identifier, arg_msg@);
        assert(!e0 ==> self.agrees(s3));
        let arg = self.previous.lexeme.clone();
        self.consume(TokenType::RightParen, close_msg);
        self.emit_constant(Value::Identifier(arg));
        self.emit_op(op);
    }

    /// `after(E)`, `before(E)`, `satisfied(X)` or `occurred(E)`.
    fn condition_atom(&mut self) -> (ok: bool)
        requires
            old(self).inv(),
        ensures
            Self::progress(*old(self), *final(self)),
            !ok ==> final(self).had_error,
            !old(self).had_error ==> final(self).agrees(g::cond_atom(old(self).src(), old(self).cview())),
    {
        proof {
            reveal(g::cond_atom);
            g::lemma_error_kept(self.scanner.src());
        }
        if self.check(TokenType::After) {
            self.atom_with(
                "Expected '(' after 'after'",
                "Expected identifier inside after(...)",
                "Expected ')' after after(...) argument",
                OpCode::ConditionAfter,
            );
            return true;
        }
        if self.check(TokenType::Before) {
            self.atom_with(
                "Expected '(' after 'before'",
                "Expected identifier inside before(...)",
                "Expected ')' after before(...) argument",
                OpCode::ConditionBefore,
            );
            return true;
        }
        if self.check(TokenType::Satisfied) {
            self.atom_with(
                "Expected '(' after 'satisfied'",
                "Expected identifier inside satisfied(...)",
                "Expected ')' after satisfied(...) argument",
                OpCode::ConditionSatisfied,
            );
            return true;
        }
        if self.check(TokenType::Occurred) {
            self.atom_with(
                "Expected '(' after 'occurred'",
                "Expected identifier inside occurred(...)",
                "Expected ')' after occurred(...) argument",
                OpCode::ConditionOccurred,
            );
            return true;
        }
        self.error_at_current(
            "Expected condition expression: after(...), before(...), satisfied(...), occurred(...), or grouped (...)",
        );
        false
    }

    /// `on breach_of(TARGET)` after a phase name, if present.
    fn phase_target(&mut self) -> (res: Option<String>)
        requires
            old(self).inv(),
        ensures
            Self::progress(*old(self), *final(self)),
            final(self).chunk == old(self).chunk,
            !old(self).had_error ==> final(self).agrees(g::phase_target(old(self).src(), old(self).cview()).0),
            !old(self).had_error && !final(self).had_error ==> match g::phase_target(old(self).src(), old(self).cview()).1 {
                Some(t) => res is Some && res->0@ == t,
                None => res is None,
            },
    {
        proof {
            reveal(g::phase_target);
            g::lemma_error_kept(self.scanner.src());
        }
        let ghost src = self.src();
        let ghost s0 = self.cview();
        let ghost e0 = self.had_error;
        if self.match_token(TokenType::On) {
            let ghost s1 = g::advance(src, s0);
            self.consume(TokenType::BreachOf, "Expected 'breach_of' after 'on'");
            let ghost s2 = g::consume(src, s1, TokenType::BreachOf, "Expected 'breach_of' after 'on'"@);
            assert(!e0 ==> self.agrees(s2));
            self.consume(TokenType::LeftParen, "Expected '(' after 'breach_of'");
            let ghost s3 = g::consume(src, s2, TokenType::LeftParen, "Expected '(' after 'breach_of'"@);
            assert(!e0 ==> self.agrees(s3));
            self.consume(TokenType::Identifier, "Expected breach target identifier in breach_of(...)");
            let ghost s4 = g::consume(src, s3, TokenType::Identifier, "Expected breach target identifier in breach_of(...)"@);
            assert(!e0 ==> self.agrees(s4));
            let target = self.previous.lexeme.clone();
            self.consume(TokenType::RightParen, "Expected ')' after breach_of target");
            Some(target)
        } else {
            None
        }
    }

    /// `phase NAME [on breach_of(TARGET)] { fields }`: the name, the
    /// `breach_of(TARGET)` marker if any, `BeginPhase`, the fields, `EndPhase`.
    fn phase_decl(&mut self, phase_names: &mut Vec<String>)
        requires
            old(self).inv(),
            old(self).current.token_type == TokenType::Phase,
        ensures
            Self::progress(*old(self), *final(self)),
            final(self).measure() < old(self).measure(),
            !old(self).had_error ==> final(self).agrees(g::phase_decl(old(self).src(), old(self).cview(), texts(old(phase_names)@)).0),
            !old(self).had_error && !final(self).had_error ==> texts(final(phase_names)@) == g::phase_decl(
                old(self).src(),
                old(self).cview(),
                texts(old(phase_names)@),
            ).1,
    {
        proof {
            reveal(g::phase_decl);
            g::lemma_error_kept(self.scanner.src());
        }
        let ghost src = self.src();
        let ghost s0 = self.cview();
        let ghost e0 = self.had_error;
        let ghost n0 = texts(phase_names@);
        self.consume(TokenType::Phase, "Expected 'phase'");
        let ghost s1 = g::consume(src, s0, TokenType::Phase, "Expected 'phase'"@);
        assert(!e0 ==> self.agrees(s1));
        self.consume(TokenType::Identifier, "Expected phase name");
        let ghost s2 = g::consume(src, s1, TokenType::Identifier, "Expected phase name"@);
        assert(!e0 ==> self.agrees(s2));
        let phase_name = self.previous.lexeme.clone();
        if !insert_name(phase_names, phase_name.as_str()) {
            let msg = duplicate_text("phase name", phase_name.as_str());
            self.error_at_previous(msg.as_str());
        }
        let ghost s3 = g::declared(s2, n0, s2.prev.lexeme, "phase name"@).0;
        assert(!e0 ==> self.agrees(s3));
        let phase_breach_target = self.phase_target();
        let ghost s4 = g::phase_target(src, s3).0;
        assert(!e0 ==> self.agrees(s4));
        self.consume(TokenType::LeftBrace, "Expected '{' after phase header");
        let ghost s5 = g::consume(src, s4, TokenType::LeftBrace, "Expected '{' after phase header"@);
        assert(!e0 ==> self.agrees(s5));
        self.emit_constant(Value::Identifier(phase_name));
        let ghost s6 = g::emit_const(s5, ValueView::Identifier(s2.prev.lexeme));
        assert(!e0 ==> self.agrees(s6));
        match phase_breach_target {
            Some(target) => self.emit_constant(Value::Identifier(breach_of_text(target.as_str()))),
            None => {},
        }
        let ghost s7 = match g::phase_target(src, s3).1 {
            Some(t) => g::emit_const(s6, ValueView::Identifier(g::breach_of(t))),
            None => s6,
        };
        assert(!e0 ==> self.agrees(s7));
        self.emit_op(OpCode::BeginPhase);
        self.fields();
        let ghost s8 = g::fields(src, g::emit_op(s7, OpCode::BeginPhase));
        assert(!e0 ==> self.agrees(s8));
        self.consume(TokenType::RightBrace, "Expected '}' after phase block");
        self.emit_op(OpCode::EndPhase);
    }

    /// The body of a remedy: phases (then nothing but `}`), or fields.
    fn remedy_body(&mut self)
        requires
            old(self).inv(),
        ensures
            Self::progress(*old(self), *final(self)),
            !old(self).had_error ==> final(self).agrees(g::remedy_body(old(self).src(), old(self).cview())),
    {
        proof {
            reveal(g::remedy_body);
            reveal(g::phases);
            g::lemma_error_kept(self.scanner.src());
        }
        let ghost src = self.src();
        let ghost e0 = self.had_error;
        if self.check(TokenType::Phase) {
            let ghost target = g::phases(src, self.cview(), Seq::empty());
            let mut phase_names: Vec<String> = Vec::new();
            proof {
                assert(texts(phase_names@) =~= Seq::<Seq<char>>::empty());
            }
            while self.check(TokenType::Phase) && !self.check(TokenType::Eof)
                invariant
                    Self::progress(*old(self), *self),
                    self.src() == src,
                    !e0 ==> if self.had_error {
                        target.err == Some(error_parts(self.errors@[0]))
                    } else {
                        g::phases(src, self.cview(), texts(phase_names@)) == target
                    },
                decreases self.measure(),
            {
                proof {
                    reveal(g::phases);
                    g::lemma_error_kept(self.scanner.src());
                }
                let ghost st = self.cview();
                let ghost names = texts(phase_names@);
                let ghost before = *self;
                self.phase_decl(&mut phase_names);
                proof {
                    self.lemma_measure();
                    before.lemma_measure();
                    if !e0 && !before.had_error {
                        let (s1, names1) = g::phase_decl(src, st, names);
                        assert(g::phases(src, st, names) == if 0 <= g::measure(src, s1) < g::measure(src, st) {
                            g::phases(src, s1, names1)
                        } else {
                            s1
                        });
                        assert(self.agrees(s1));
                        if self.had_error {
                            assert(g::phases(src, s1, names1) == s1);
                            assert(target == s1);
                        } else {
                            assert(self.cview() == s1);
                            assert(texts(phase_names@) == names1);
                            assert(g::measure(src, s1) < g::measure(src, st));
                        }
                    }
                }
            }
            assert(!e0 ==> self.agrees(target));
            if !self.check(TokenType::RightBrace) && !self.check(TokenType::Eof) {
                self.error_at_current("Expected 'phase' or '}' in remedy body");
                self.advance();
                let ghost first = self.errors@[0];
                while !self.check(TokenType::RightBrace) && !self.check(TokenType::Eof)
                    invariant
                        Self::progress(*old(self), *self),
                        self.had_error,
                        self.errors@[0] == first,
                    decreases self.measure(),
                {
                    self.error_at_current("Expected 'phase' or '}' in remedy body");
                    self.advance();
                }
            }
        } else {
            self.fields();
        }
    }

    /// `remedy NAME on breach_of(TARGET) { ... }`, whose body holds either
    /// obligation fields or phases.
    fn remedy_decl(&mut self)
        requires
            old(self).inv(),
            old(self).current.token_type == TokenType::Remedy,
        ensures
            Self::progress(*old(self), *final(self)),
            final(self).measure() < old(self).measure(),
            !old(self).had_error ==> final(self).agrees(g::remedy_decl(old(self).src(), old(self).cview())),
    {
        proof {
            reveal(g::remedy_decl);
            g::lemma_error_kept(self.scanner.src());
        }
        let ghost src = self.src();
        let ghost s0 = self.cview();
        let ghost e0 = self.had_error;
        self.consume(TokenType::Remedy, "Expected 'remedy'");
        let ghost s1 = g::consume(src, s0, TokenType::Remedy, "Expected 'remedy'"@);
        assert(!e0 ==> self.agrees(s1));
        self.consume(TokenType::Identifier, "Expected remedy name");
        let ghost s2 = g::consume(src, s1, TokenType::Identifier, "Expected remedy name"@);
        assert(!e0 ==> self.agrees(s2));
        let remedy_name = self.previous.lexeme.clone();
        self.declare(4, remedy_name.as_str(), "remedy name");
        let ghost s3 = {
            let (s, names) = g::declared(s2, s2.remedies, s2.prev.lexeme, "remedy name"@);
            CState { remedies: names, ..s }
        };
        assert(!e0 ==> self.agrees(s3));
        self.consume(TokenType::On, "Expected 'on' after remedy name");
        let ghost s4 = g::consume(src, s3, TokenType::On, "Expected 'on' after remedy name"@);
        assert(!e0 ==> self.agrees(s4));
        self.consume(TokenType::BreachOf, "Expected 'breach_of' after 'on'");
        let ghost s5 = g::consume(src, s4, TokenType::BreachOf, "Expected 'breach_of' after 'on'"@);
        assert(!e0 ==> self.agrees(s5));
        self.consume(TokenType::LeftParen, "Expected '(' after 'breach_of'");
        let ghost s6 = g::consume(src, s5, TokenType::LeftParen, "Expected '(' after 'breach_of'"@);
        assert(!e0 ==> self.agrees(s6));
        self.consume(TokenType::Identifier, "Expected breach target identifier in breach_of(...)");
        let ghost s7 = g::consume(src, s6, TokenType::Identifier, "Expected breach target identifier in breach_of(...)"@);
        assert(!e0 ==> self.agrees(s7));
        let breach_target = self.previous.lexeme.clone();
        self.consume(TokenType::RightParen, "Expected ')' after breach_of target");
        let ghost s8 = g::consume(src, s7, TokenType::RightParen, "Expected ')' after breach_of target"@);
        assert(!e0 ==> self.agrees(s8));
        self.consume(TokenType::LeftBrace, "Expected '{' after remedy header");
        let ghost s9 = g::consume(src, s8, TokenType::LeftBrace, "Expected '{' after remedy header"@);
        assert(!e0 ==> self.agrees(s9));
        self.emit_constant(Value::Identifier(remedy_name));
        self.emit_constant(Value::Identifier(breach_target));
        self.emit_op(OpCode::BeginRemedy);
        let ghost s10 = g::emit_op(
            g::emit_const(g::emit_const(s9, ValueView::Identifier(s2.prev.lexeme)), ValueView::Identifier(s7.prev.lexeme)),
            OpCode::BeginRemedy,
        );
        assert(!e0 ==> self.agrees(s10));
        self.remedy_body();
        let ghost s11 = g::remedy_body(src, s10);
        assert(!e0 ==> self.agrees(s11));
        self.consume(TokenType::RightBrace, "Expected '}' after remedy block");
        self.emit_op(OpCode::EndRemedy);
    }
}

} // verus!
