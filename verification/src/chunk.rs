//! Bytecode: opcodes, constant values and chunks, and their disassembly.

use vstd::prelude::*;
use vstd::std_specs::convert::FromSpecImpl;
use crate::dates::{day_text, format_day};
use crate::text::{append_str, decimal, decimal_string, owned, push_char};

verus! {

/// A constant operand.
#[derive(Debug, PartialEq)]
pub enum Value {
    Str(String),
    /// A whole number (durations are whole numbers of days).
    Num(u64),
    /// A day number (see `dates`).
    Date(i64),
    Identifier(String),
}

pub enum ValueView {
    Str(Seq<char>),
    Num(u64),
    Date(i64),
    Identifier(Seq<char>),
}

impl View for Value {
    type V = ValueView;

    open spec fn view(&self) -> ValueView {
        match self {
            Value::Str(s) => ValueView::Str(s@),
            Value::Num(n) => ValueView::Num(*n),
            Value::Date(d) => ValueView::Date(*d),
            Value::Identifier(s) => ValueView::Identifier(s@),
        }
    }
}

impl Clone for Value {
    fn clone(&self) -> (res: Self)
        ensures
            res@ == self@,
    {
        match self {
            Value::Str(s) => Value::Str(s.clone()),
            Value::Num(n) => Value::Num(*n),
            Value::Date(d) => Value::Date(*d),
            Value::Identifier(s) => Value::Identifier(s.clone()),
        }
    }
}

/// How a value is shown: strings quoted, numbers in decimal, dates as
/// `YYYY-MM-DD`, identifiers bare.
pub open spec fn value_text(v: ValueView) -> Seq<char> {
    match v {
        ValueView::Str(s) => seq!['"'] + s + seq!['"'],
        ValueView::Num(n) => decimal(n as nat),
        ValueView::Date(d) => day_text(d),
        ValueView::Identifier(s) => s,
    }
}

impl Value {
    /// The value as shown (see `value_text`).
    pub fn to_string(&self) -> (res: String)
        ensures
            res@ == value_text(self@),
    {
        match self {
            Value::Str(s) => {
                let mut out = String::new();
                push_char(&mut out, '"');
                append_str(&mut out, s.as_str());
                push_char(&mut out, '"');
                assert(out@ =~= seq!['"'] + s@ + seq!['"']);
                out
            },
            Value::Num(n) => decimal_string(*n),
            Value::Date(d) => format_day(*d),
            Value::Identifier(s) => s.clone(),
        }
    }
}

/// The instructions of the virtual machine.
#[derive(Debug, Clone, Copy, PartialEq, Eq, Structural)]
pub enum OpCode {
    Constant,
    DefineParty,
    DefineEvent,
    DefineTerm,
    BeginObligation,
    SetParty,
    SetAction,
    SetDue,
    ConditionAfter,
    ConditionSatisfied,
    ConditionOccurred,
    ConditionAnd,
    SetCondition,
    EndObligation,
    BeginRemedy,
    EndRemedy,
    BeginPhase,
    EndPhase,
    Return,
    ConditionBefore,
    ConditionOr,
}

/// The byte that encodes an opcode: its position in the list of opcodes.
pub open spec fn opcode_byte(op: OpCode) -> u8 {
    match op {
        OpCode::Constant => 0,
        OpCode::DefineParty => 1,
        OpCode::DefineEvent => 2,
        OpCode::DefineTerm => 3,
        OpCode::BeginObligation => 4,
        OpCode::SetParty => 5,
        OpCode::SetAction => 6,
        OpCode::SetDue => 7,
        OpCode::ConditionAfter => 8,
        OpCode::ConditionSatisfied => 9,
        OpCode::ConditionOccurred => 10,
        OpCode::ConditionAnd => 11,
        OpCode::SetCondition => 12,
        OpCode::EndObligation => 13,
        OpCode::BeginRemedy => 14,
        OpCode::EndRemedy => 15,
        OpCode::BeginPhase => 16,
        OpCode::EndPhase => 17,
        OpCode::Return => 18,
        OpCode::ConditionBefore => 19,
        OpCode::ConditionOr => 20,
    }
}

/// The opcode a byte encodes, if any.
pub open spec fn byte_opcode(b: u8) -> Option<OpCode> {
    if b == 0 {
        Some(OpCode::Constant)
    } else if b == 1 {
        Some(OpCode::DefineParty)
    } else if b == 2 {
        Some(OpCode::DefineEvent)
    } else if b == 3 {
        Some(OpCode::DefineTerm)
    } else if b == 4 {
        Some(OpCode::BeginObligation)
    } else if b == 5 {
        Some(OpCode::SetParty)
    } else if b == 6 {
        Some(OpCode::SetAction)
    } else if b == 7 {
        Some(OpCode::SetDue)
    } else if b == 8 {
        Some(OpCode::ConditionAfter)
    } else if b == 9 {
        Some(OpCode::ConditionSatisfied)
    } else if b == 10 {
        Some(OpCode::ConditionOccurred)
    } else if b == 11 {
        Some(OpCode::ConditionAnd)
    } else if b == 12 {
        Some(OpCode::SetCondition)
    } else if b == 13 {
        Some(OpCode::EndObligation)
    } else if b == 14 {
        Some(OpCode::BeginRemedy)
    } else if b == 15 {
        Some(OpCode::EndRemedy)
    } else if b == 16 {
        Some(OpCode::BeginPhase)
    } else if b == 17 {
        Some(OpCode::EndPhase)
    } else if b == 18 {
        Some(OpCode::Return)
    } else if b == 19 {
        Some(OpCode::ConditionBefore)
    } else if b == 20 {
        Some(OpCode::ConditionOr)
    } else {
        None
    }
}

/// Decoding the byte of an opcode gives the opcode back, and every byte that
/// decodes is the byte of the opcode it decodes to.
pub proof fn lemma_opcode_roundtrip(op: OpCode, b: u8)
    ensures
        byte_opcode(opcode_byte(op)) == Some(op),
        byte_opcode(b) matches Some(o) ==> opcode_byte(o) == b,
        byte_opcode(b) is Some <==> b <= 20,
{
}

impl OpCode {
    /// The opcode a byte encodes; none for a byte past the last opcode.
    pub fn from_byte(byte: u8) -> (res: Option<OpCode>)
        ensures
            res == byte_opcode(byte),
    {
        match byte {
            0 => Some(OpCode::Constant),
            1 => Some(OpCode::DefineParty),
            2 => Some(OpCode::DefineEvent),
            3 => Some(OpCode::DefineTerm),
            4 => Some(OpCode::BeginObligation),
            5 => Some(OpCode::SetParty),
            6 => Some(OpCode::SetAction),
            7 => Some(OpCode::SetDue),
            8 => Some(OpCode::ConditionAfter),
            9 => Some(OpCode::ConditionSatisfied),
            10 => Some(OpCode::ConditionOccurred),
            11 => Some(OpCode::ConditionAnd),
            12 => Some(OpCode::SetCondition),
            13 => Some(OpCode::EndObligation),
            14 => Some(OpCode::BeginRemedy),
            15 => Some(OpCode::EndRemedy),
            16 => Some(OpCode::BeginPhase),
            17 => Some(OpCode::EndPhase),
            18 => Some(OpCode::Return),
            19 => Some(OpCode::ConditionBefore),
            20 => Some(OpCode::ConditionOr),
            _ => None,
        }
    }

    /// The opcode a byte of an opcode encodes; the byte must be one
    /// (at most 20), as decoding any other byte is a fault.
    pub fn from_u8(byte: u8) -> (op: OpCode)
        requires
            byte <= 20,
        ensures
            byte_opcode(byte) == Some(op),
            opcode_byte(op) == byte,
    {
        match byte {
            0 => OpCode::Constant,
            1 => OpCode::DefineParty,
            2 => OpCode::DefineEvent,
            3 => OpCode::DefineTerm,
            4 => OpCode::BeginObligation,
            5 => OpCode::SetParty,
            6 => OpCode::SetAction,
            7 => OpCode::SetDue,
            8 => OpCode::ConditionAfter,
            9 => OpCode::ConditionSatisfied,
            10 => OpCode::ConditionOccurred,
            11 => OpCode::ConditionAnd,
            12 => OpCode::SetCondition,
            13 => OpCode::EndObligation,
            14 => OpCode::BeginRemedy,
            15 => OpCode::EndRemedy,
            16 => OpCode::BeginPhase,
            17 => OpCode::EndPhase,
            18 => OpCode::Return,
            19 => OpCode::ConditionBefore,
            _ => OpCode::ConditionOr,
        }
    }

    /// The byte that encodes the opcode.
    pub fn to_byte(self) -> (b: u8)
        ensures
            b == opcode_byte(self),
    {
        match self {
            OpCode::Constant => 0,
            OpCode::DefineParty => 1,
            OpCode::DefineEvent => 2,
            OpCode::DefineTerm => 3,
            OpCode::BeginObligation => 4,
            OpCode::SetParty => 5,
            OpCode::SetAction => 6,
            OpCode::SetDue => 7,
            OpCode::ConditionAfter => 8,
            OpCode::ConditionSatisfied => 9,
            OpCode::ConditionOccurred => 10,
            OpCode::ConditionAnd => 11,
            OpCode::SetCondition => 12,
            OpCode::EndObligation => 13,
            OpCode::BeginRemedy => 14,
            OpCode::EndRemedy => 15,
            OpCode::BeginPhase => 16,
            OpCode::EndPhase => 17,
            OpCode::Return => 18,
            OpCode::ConditionBefore => 19,
            OpCode::ConditionOr => 20,
        }
    }

    /// The opcode's name.
    pub fn name(self) -> (res: &'static str)
        ensures
            res@ == opcode_name(self),
    {
        match self {
            OpCode::Constant => "Constant",
            OpCode::DefineParty => "DefineParty",
            OpCode::DefineEvent => "DefineEvent",
            OpCode::DefineTerm => "DefineTerm",
            OpCode::BeginObligation => "BeginObligation",
            OpCode::SetParty => "SetParty",
            OpCode::SetAction => "SetAction",
            OpCode::SetDue => "SetDue",
            OpCode::ConditionAfter => "ConditionAfter",
            OpCode::ConditionSatisfied => "ConditionSatisfied",
            OpCode::ConditionOccurred => "ConditionOccurred",
            OpCode::ConditionAnd => "ConditionAnd",
            OpCode::SetCondition => "SetCondition",
            OpCode::EndObligation => "EndObligation",
            OpCode::BeginRemedy => "BeginRemedy",
            OpCode::EndRemedy => "EndRemedy",
            OpCode::BeginPhase => "BeginPhase",
            OpCode::EndPhase => "EndPhase",
            OpCode::Return => "Return",
            OpCode::ConditionBefore => "ConditionBefore",
            OpCode::ConditionOr => "ConditionOr",
        }
    }
}

/// The name of an opcode, as written in disassembly.
pub open spec fn opcode_name(op: OpCode) -> Seq<char> {
    match op {
        OpCode::Constant => "Constant"@,
        OpCode::DefineParty => "DefineParty"@,
        OpCode::DefineEvent => "DefineEvent"@,
        OpCode::DefineTerm => "DefineTerm"@,
        OpCode::BeginObligation => "BeginObligation"@,
        OpCode::SetParty => "SetParty"@,
        OpCode::SetAction => "SetAction"@,
        OpCode::SetDue => "SetDue"@,
        OpCode::ConditionAfter => "ConditionAfter"@,
        OpCode::ConditionSatisfied => "ConditionSatisfied"@,
        OpCode::ConditionOccurred => "ConditionOccurred"@,
        OpCode::ConditionAnd => "ConditionAnd"@,
        OpCode::SetCondition => "SetCondition"@,
        OpCode::EndObligation => "EndObligation"@,
        OpCode::BeginRemedy => "BeginRemedy"@,
        OpCode::EndRemedy => "EndRemedy"@,
        OpCode::BeginPhase => "BeginPhase"@,
        OpCode::EndPhase => "EndPhase"@,
        OpCode::Return => "Return"@,
        OpCode::ConditionBefore => "ConditionBefore"@,
        OpCode::ConditionOr => "ConditionOr"@,
    }
}

impl From<OpCode> for u8 {
    fn from(op: OpCode) -> (b: u8) {
        op.to_byte()
    }
}

impl FromSpecImpl<OpCode> for u8 {
    open spec fn obeys_from_spec() -> bool {
        true
    }

    open spec fn from_spec(v: OpCode) -> u8 {
        opcode_byte(v)
    }
}

/// A compiled program: code bytes, constants, and the source line of each
/// code byte.
#[derive(Debug)]
pub struct Chunk {
    pub code: Vec<u8>,
    pub constants: Vec<Value>,
    pub lines: Vec<usize>,
}

pub struct ChunkView {
    pub code: Seq<u8>,
    pub constants: Seq<ValueView>,
    pub lines: Seq<usize>,
}

impl View for Chunk {
    type V = ChunkView;

    open spec fn view(&self) -> ChunkView {
        ChunkView {
            code: self.code@,
            constants: self.constants@.map_values(|v: Value| v@),
            lines: self.lines@,
        }
    }
}

/// `s` padded on the left with `c` to at least `w` characters.
pub open spec fn pad_left(s: Seq<char>, c: char, w: nat) -> Seq<char> {
    if s.len() >= w {
        s
    } else {
        Seq::new((w - s.len()) as nat, |i: int| c) + s
    }
}

/// `s` padded on the right with spaces to at least `w` characters.
pub open spec fn pad_right(s: Seq<char>, w: nat) -> Seq<char> {
    if s.len() >= w {
        s
    } else {
        s + Seq::new((w - s.len()) as nat, |i: int| ' ')
    }
}

fn pad_left_text(s: &str, c: char, w: usize) -> (res: String)
    ensures
        res@ == pad_left(s@, c, w as nat),
{
    let n = s.unicode_len();
    let mut res = String::new();
    if n < w {
        let mut i: usize = 0;
        while i < w - n
            invariant
                n == s@.len(),
                n < w,
                i <= w - n,
                res@ == Seq::new(i as nat, |j: int| c),
            decreases w - n - i,
        {
            push_char(&mut res, c);
            i = i + 1;
            assert(res@ =~= Seq::new(i as nat, |j: int| c));
        }
    }
    append_str(&mut res, s);
    proof {
        if n >= w {
            assert(res@ =~= s@);
        }
    }
    res
}

fn pad_right_text(s: &str, w: usize) -> (res: String)
    ensures
        res@ == pad_right(s@, w as nat),
{
    let n = s.unicode_len();
    let mut res = owned(s);
    if n < w {
        let mut i: usize = 0;
        while i < w - n
            invariant
                n == s@.len(),
                n < w,
                i <= w - n,
                res@ == s@ + Seq::new(i as nat, |j: int| ' '),
            decreases w - n - i,
        {
            push_char(&mut res, ' ');
            i = i + 1;
            assert(res@ =~= s@ + Seq::new(i as nat, |j: int| ' '));
        }
    }
    res
}

/// The instruction at `offset` can be shown: its byte is an opcode and a
/// `Constant` has its operand, which names an existing constant.
pub open spec fn instr_ok(c: ChunkView, offset: int) -> bool {
    &&& 0 <= offset < c.code.len()
    &&& offset < c.lines.len()
    &&& byte_opcode(c.code[offset]) is Some
    &&& byte_opcode(c.code[offset]) == Some(OpCode::Constant) ==> offset + 1 < c.code.len()
        && (c.code[offset + 1] as int) < c.constants.len()
}

/// Offset of the instruction after the one at `offset`.
pub open spec fn next_offset(c: ChunkView, offset: int) -> int {
    if byte_opcode(c.code[offset]) == Some(OpCode::Constant) {
        offset + 2
    } else {
        offset + 1
    }
}

/// Every instruction from `offset` on can be shown.
pub open spec fn disassemblable(c: ChunkView, offset: int) -> bool
    decreases c.code.len() - offset,
{
    if offset >= c.code.len() || offset < 0 {
        true
    } else {
        instr_ok(c, offset) && disassemblable(c, next_offset(c, offset))
    }
}

/// The line shown for the instruction at `offset`: its offset (four digits),
/// its source line (or `|` when it is the line of the byte before), and the
/// instruction.
pub open spec fn instr_text(c: ChunkView, offset: int) -> Seq<char> {
    let head = pad_left(decimal(offset as nat), '0', 4) + " "@;
    let line = if offset > 0 && c.lines[offset] == c.lines[offset - 1] {
        "   | "@
    } else {
        pad_left(decimal(c.lines[offset] as nat), ' ', 4) + " "@
    };
    let op = byte_opcode(c.code[offset])->0;
    let body = if op == OpCode::Constant {
        let idx = c.code[offset + 1];
        pad_right("Constant"@, 20) + " "@ + pad_left(decimal(idx as nat), ' ', 4) + " '"@ + value_text(
            c.constants[idx as int],
        ) + "'\n"@
    } else {
        opcode_name(op) + "\n"@
    };
    head + line + body
}

/// The disassembly from `offset` on.
pub open spec fn disasm_from(c: ChunkView, offset: int) -> Seq<char>
    decreases c.code.len() - offset,
{
    if offset >= c.code.len() || offset < 0 || !instr_ok(c, offset) {
        Seq::empty()
    } else {
        instr_text(c, offset) + disasm_from(c, next_offset(c, offset))
    }
}

/// The disassembly of a chunk, under the header `== name ==`.
pub open spec fn disasm_text(c: ChunkView, name: Seq<char>) -> Seq<char> {
    "== "@ + name + " ==\n"@ + disasm_from(c, 0)
}

impl Chunk {
    pub fn new() -> (res: Self)
        ensures
            res.code@ == Seq::<u8>::empty(),
            res.constants@ == Seq::<Value>::empty(),
            res.lines@ == Seq::<usize>::empty(),
    {
        Chunk { code: Vec::new(), constants: Vec::new(), lines: Vec::new() }
    }

    /// Appends a byte from source line `line`.
    pub fn write(&mut self, byte: u8, line: usize)
        ensures
            final(self).code@ == old(self).code@.push(byte),
            final(self).lines@ == old(self).lines@.push(line),
            final(self).constants@ == old(self).constants@,
    {
        self.code.push(byte);
        self.lines.push(line);
    }

    /// Appends a constant; returns its index as a byte (the index taken
    /// modulo 256, as a byte holds it).
    pub fn add_constant(&mut self, value: Value) -> (idx: u8)
        ensures
            final(self).constants@ == old(self).constants@.push(value),
            final(self).code@ == old(self).code@,
            final(self).lines@ == old(self).lines@,
            idx as int == old(self).constants@.len() % 256,
    {
        self.constants.push(value);
        let n = self.constants.len() - 1;
        (n % 256) as u8
    }

    /// The disassembly of the chunk (see `disasm_text`).
    pub fn disassemble_to_string(&self, name: &str) -> (res: String)
        requires
            disassemblable(self@, 0),
        ensures
            res@ == disasm_text(self@, name@),
    {
        let mut out = owned("== ");
        append_str(&mut out, name);
        append_str(&mut out, " ==\n");
        let ghost header = out@;
        let mut offset: usize = 0;
        while offset < self.code.len()
            invariant
                disassemblable(self@, offset as int),
                header == "== "@ + name@ + " ==\n"@,
                out@ + disasm_from(self@, offset as int) == header + disasm_from(self@, 0),
            decreases self.code@.len() - offset,
        {
            offset = self.disassemble_instruction_to(&mut out, offset);
        }
        proof {
            assert(disasm_from(self@, offset as int) == Seq::<char>::empty());
            assert(out@ =~= out@ + Seq::<char>::empty());
        }
        out
    }

    fn instr_prefix(&self, offset: usize) -> (res: String)
        requires
            instr_ok(self@, offset as int),
        ensures
            res@ == pad_left(decimal(offset as nat), '0', 4) + " "@ + (if offset > 0 && self@.lines[offset as int]
                == self@.lines[offset - 1] {
                "   | "@
            } else {
                pad_left(decimal(self@.lines[offset as int] as nat), ' ', 4) + " "@
            }),
    {
        let mut out = pad_left_text(decimal_string(offset as u64).as_str(), '0', 4);
        append_str(&mut out, " ");
        if offset > 0 && self.lines[offset] == self.lines[offset - 1] {
            append_str(&mut out, "   | ");
        } else {
            let l = pad_left_text(decimal_string(self.lines[offset] as u64).as_str(), ' ', 4);
            append_str(&mut out, l.as_str());
            append_str(&mut out, " ");
        }
        out
    }

    fn constant_body(&self, idx: u8) -> (res: String)
        requires
            (idx as int) < self@.constants.len(),
        ensures
            res@ == pad_right("Constant"@, 20) + " "@ + pad_left(decimal(idx as nat), ' ', 4) + " '"@
                + value_text(self@.constants[idx as int]) + "'\n"@,
    {
        let mut out = pad_right_text("Constant", 20);
        append_str(&mut out, " ");
        let idx_text = pad_left_text(decimal_string(idx as u64).as_str(), ' ', 4);
        append_str(&mut out, idx_text.as_str());
        append_str(&mut out, " '");
        let v = self.constants[idx as usize].to_string();
        append_str(&mut out, v.as_str());
        append_str(&mut out, "'\n");
        out
    }

    fn disassemble_instruction_to(&self, out: &mut String, offset: usize) -> (next: usize)
        requires
            offset < self.code@.len(),
            disassemblable(self@, offset as int),
        ensures
            next as int == next_offset(self@, offset as int),
            disassemblable(self@, next as int),
            final(out)@ + disasm_from(self@, next as int) == old(out)@ + disasm_from(self@, offset as int),
    {
        let ghost c = self@;
        let n = self.code.len();
        proof {
            assert(instr_ok(c, offset as int));
        }
        let prefix = self.instr_prefix(offset);
        let op = match OpCode::from_byte(self.code[offset]) {
            Some(op) => op,
            None => {
                proof {
                    assert(false);
                }
                OpCode::Return
            },
        };
        proof {
            assert(byte_opcode(c.code[offset as int]) == Some(op));
        }
        let (body, next) = if op == OpCode::Constant {
            assert(offset + 1 < n);
            (self.constant_body(self.code[offset + 1]), offset + 2)
        } else {
            let mut b = owned(op.name());
            append_str(&mut b, "\n");
            (b, offset + 1)
        };
        append_str(out, prefix.as_str());
        append_str(out, body.as_str());
        proof {
            assert(prefix@ + body@ == instr_text(c, offset as int));
            assert(final(out)@ =~= old(out)@ + instr_text(c, offset as int));
        }
        next
    }
}

} // verus!
