//! The virtual machine that runs a chunk and builds the contract model.

use vstd::prelude::*;
use crate::chunk::{Chunk, ChunkView, OpCode, Value, ValueView, byte_opcode};
use crate::dates::{parse_date, spec_parse_date};
use crate::error::KontraError;
use crate::namemap::{NameMap, entry_keys, entry_insert, opt_view};
use crate::text::{owned, append_str, text_eq, chars_of, text_range, split_words, words, texts, parse_u32, parse_u32_spec};
use crate::types::{
    ConditionExpr, ConditionView, ContractDef, ContractView, DueDef, DueView, Duration, DurationUnit,
    EventDef, EventDefView, ObligationDef, ObligationView, Party, PartyView, PhaseDef, PhaseView,
    RemedyDef, RemedyView, Term, TermView, TermAnchor, TermAnchorView, views,
};

verus! {

/// The machine's state as mathematical values.
pub struct VmView {
    pub ip: int,
    pub stack: Seq<ValueView>,
    pub conds: Seq<ConditionView>,
    pub contract: ContractView,
    pub ob: Option<ObligationView>,
    pub rem: Option<RemedyView>,
    pub phase: Option<PhaseView>,
}

/// A runtime error: the source line of the failing instruction (or of the
/// last instruction, when the failing position has none) and the message.
pub struct FailView {
    pub line: Option<usize>,
    pub message: Seq<char>,
}

pub open spec fn fail_at(c: ChunkView, op: int, msg: Seq<char>) -> FailView {
    FailView {
        line: if 0 <= op < c.lines.len() {
            Some(c.lines[op])
        } else if c.lines.len() > 0 {
            Some(c.lines.last())
        } else {
            None
        },
        message: msg,
    }
}

/// `e` is the runtime error `f`.
pub open spec fn fail_matches(e: KontraError, f: FailView) -> bool {
    e matches KontraError::Runtime { line, message } && line == f.line && message@ == f.message
}

pub open spec fn empty_contract_view() -> ContractView {
    ContractView {
        parties: Seq::empty(),
        events: Seq::empty(),
        terms: Seq::empty(),
        obligations: Seq::empty(),
        remedies: Seq::empty(),
    }
}

/// The machine before the first instruction.
pub open spec fn initial_vm() -> VmView {
    VmView {
        ip: 0,
        stack: Seq::empty(),
        conds: Seq::empty(),
        contract: empty_contract_view(),
        ob: None,
        rem: None,
        phase: None,
    }
}

pub open spec fn pop_any(c: ChunkView, s: VmView, op: int) -> Result<(ValueView, VmView), FailView> {
    if s.stack.len() == 0 {
        Err(fail_at(c, op, "Stack underflow"@))
    } else {
        Ok((s.stack.last(), VmView { stack: s.stack.drop_last(), ..s }))
    }
}

pub open spec fn pop_ident(c: ChunkView, s: VmView, op: int, ctx: Seq<char>) -> Result<(Seq<char>, VmView), FailView> {
    match pop_any(c, s, op) {
        Err(e) => Err(e),
        Ok((v, s1)) => match v {
            ValueView::Identifier(x) => Ok((x, s1)),
            _ => Err(fail_at(c, op, ctx)),
        },
    }
}

pub open spec fn pop_str(c: ChunkView, s: VmView, op: int, ctx: Seq<char>) -> Result<(Seq<char>, VmView), FailView> {
    match pop_any(c, s, op) {
        Err(e) => Err(e),
        Ok((v, s1)) => match v {
            ValueView::Str(x) => Ok((x, s1)),
            _ => Err(fail_at(c, op, ctx)),
        },
    }
}

pub open spec fn pop_num(c: ChunkView, s: VmView, op: int, ctx: Seq<char>) -> Result<(u64, VmView), FailView> {
    match pop_any(c, s, op) {
        Err(e) => Err(e),
        Ok((v, s1)) => match v {
            ValueView::Num(x) => Ok((x, s1)),
            _ => Err(fail_at(c, op, ctx)),
        },
    }
}

/// The target of `breach_of(TARGET)`, when `raw` has that form with a
/// non-empty target.
pub open spec fn breach_of_inner(raw: Seq<char>) -> Option<Seq<char>> {
    if raw.len() > 11 && raw.take(10) == "breach_of("@ && raw.last() == ')' {
        Some(raw.subrange(10, raw.len() - 1))
    } else {
        None
    }
}

/// The duration unit a name stands for.
pub open spec fn unit_named(u: Seq<char>) -> Option<DurationUnit> {
    if u == "calendar_days"@ {
        Some(DurationUnit::CalendarDays)
    } else if u == "business_days"@ {
        Some(DurationUnit::BusinessDays)
    } else {
        None
    }
}

/// An inline deadline `<N> <unit> from <Anchor>`.
pub open spec fn inline_due(c: ChunkView, op: int, raw: Seq<char>) -> Result<DueView, FailView> {
    let parts = words(raw);
    if parts.len() != 4 || parts[2] != "from"@ {
        Err(fail_at(c, op, "Inline due must match: '<N> <calendar_days|business_days> from <Anchor>'"@))
    } else {
        match parse_u32_spec(parts[0]) {
            None => Err(fail_at(c, op, "Inline due amount must be integer"@)),
            Some(amount) => match unit_named(parts[1]) {
                None => Err(fail_at(c, op, "Inline due unit must be calendar_days or business_days"@)),
                Some(unit) => Ok(DueView::InlineDuration { duration: Duration { amount, unit }, anchor: parts[3] }),
            },
        }
    }
}

/// An inline deadline `<N> <unit> from <Anchor>` counts `N` units of the
/// kind its unit word names, `business_days` business days and
/// `calendar_days` calendar days, from `<Anchor>`; any other unit word is
/// refused.
pub proof fn lemma_inline_due_unit(c: ChunkView, op: int, raw: Seq<char>)
    ensures
        ({
            let parts = words(raw);
            parts.len() == 4 && parts[2] == "from"@ && parse_u32_spec(parts[0]) is Some ==> {
                let n = parse_u32_spec(parts[0])->0;
                &&& parts[1] == "business_days"@ ==> inline_due(c, op, raw) == Ok::<DueView, FailView>(DueView::InlineDuration {
                    duration: Duration { amount: n, unit: DurationUnit::BusinessDays },
                    anchor: parts[3],
                })
                &&& parts[1] == "calendar_days"@ ==> inline_due(c, op, raw) == Ok::<DueView, FailView>(DueView::InlineDuration {
                    duration: Duration { amount: n, unit: DurationUnit::CalendarDays },
                    anchor: parts[3],
                })
                &&& parts[1] != "business_days"@ && parts[1] != "calendar_days"@ ==> inline_due(c, op, raw) is Err
            }
        }),
{
    reveal_strlit("business_days");
    reveal_strlit("calendar_days");
    assert("business_days"@ != "calendar_days"@) by {
        assert("business_days"@[0] != "calendar_days"@[0]);
    }
}

/// The deadline an operand stands for: a term name, or an inline deadline.
pub open spec fn due_of(c: ChunkView, op: int, v: ValueView) -> Result<DueView, FailView> {
    match v {
        ValueView::Identifier(t) => Ok(DueView::TermRef(t)),
        ValueView::Str(raw) => inline_due(c, op, raw),
        _ => Err(fail_at(c, op, "SetDue expects identifier or inline due string"@)),
    }
}

pub open spec fn with_contract(s: VmView, k: ContractView) -> VmView {
    VmView { contract: k, ..s }
}

pub open spec fn spec_op_constant(c: ChunkView, s: VmView, op: int) -> Result<VmView, FailView> {
    if s.ip < 0 || s.ip >= c.code.len() {
        Err(fail_at(c, op, "Unexpected end of bytecode"@))
    } else {
        let idx = c.code[s.ip] as int;
        if idx < c.constants.len() {
            Ok(VmView { ip: s.ip + 1, stack: s.stack.push(c.constants[idx]), ..s })
        } else {
            Err(fail_at(c, op, "Constant index out of bounds"@))
        }
    }
}

pub open spec fn spec_op_define_party(c: ChunkView, s: VmView, op: int) -> Result<VmView, FailView> {
    match pop_str(c, s, op, "DefineParty expects party name string on stack"@) {
        Err(e) => Err(e),
        Ok((name, s1)) => match pop_ident(c, s1, op, "DefineParty expects role identifier on stack"@) {
            Err(e) => Err(e),
            Ok((role, s2)) => if entry_keys(s2.contract.parties).contains(role) {
                Err(fail_at(c, op, "Duplicate party role '"@ + role + "'"@))
            } else {
                Ok(with_contract(s2, ContractView {
                    parties: entry_insert(s2.contract.parties, role, PartyView { role, name }),
                    ..s2.contract
                }))
            },
        },
    }
}

pub open spec fn spec_op_define_event(c: ChunkView, s: VmView, op: int) -> Result<VmView, FailView> {
    match pop_any(c, s, op) {
        Err(e) => Err(e),
        Ok((arg, s1)) => match pop_ident(c, s1, op, "DefineEvent expects event name identifier"@) {
            Err(e) => Err(e),
            Ok((name, s2)) => if entry_keys(s2.contract.events).contains(name) {
                Err(fail_at(c, op, "Duplicate event name '"@ + name + "'"@))
            } else {
                let ev: Result<EventDefView, FailView> = match arg {
                    ValueView::Str(d) => match spec_parse_date(d) {
                        Some(day) => Ok(EventDefView::DateEvent(day)),
                        None => Err(fail_at(c, op, "DefineEvent date must be YYYY-MM-DD"@)),
                    },
                    ValueView::Identifier(r) => Ok(EventDefView::TriggeredEvent(r)),
                    _ => Err(fail_at(c, op, "DefineEvent expects date string or triggering party identifier"@)),
                };
                match ev {
                    Err(e) => Err(e),
                    Ok(event) => Ok(with_contract(s2, ContractView {
                        events: entry_insert(s2.contract.events, name, event),
                        ..s2.contract
                    })),
                }
            },
        },
    }
}

pub open spec fn spec_op_define_term(c: ChunkView, s: VmView, op: int) -> Result<VmView, FailView> {
    match pop_ident(c, s, op, "DefineTerm expects anchor identifier"@) {
        Err(e) => Err(e),
        Ok((anchor_raw, s1)) => match pop_str(c, s1, op, "DefineTerm expects duration unit string"@) {
            Err(e) => Err(e),
            Ok((unit_raw, s2)) => match pop_num(c, s2, op, "DefineTerm expects numeric duration amount"@) {
                Err(e) => Err(e),
                Ok((amount_raw, s3)) => match pop_ident(c, s3, op, "DefineTerm expects term name identifier"@) {
                    Err(e) => Err(e),
                    Ok((name, s4)) => if entry_keys(s4.contract.terms).contains(name) {
                        Err(fail_at(c, op, "Duplicate term name '"@ + name + "'"@))
                    } else {
                        match unit_named(unit_raw) {
                            None => Err(fail_at(c, op, "Unknown term duration unit"@)),
                            Some(unit) => {
                                let amount: u32 = if amount_raw > u32::MAX { u32::MAX } else { amount_raw as u32 };
                                let anchor = match breach_of_inner(anchor_raw) {
                                    Some(t) => TermAnchorView::BreachOf(t),
                                    None => TermAnchorView::Event(anchor_raw),
                                };
                                let term = TermView {
                                    name,
                                    duration: Duration { amount, unit },
                                    anchor,
                                    calendar_ref: None,
                                };
                                Ok(with_contract(s4, ContractView {
                                    terms: entry_insert(s4.contract.terms, name, term),
                                    ..s4.contract
                                }))
                            },
                        }
                    },
                },
            },
        },
    }
}

pub open spec fn spec_op_begin_obligation(c: ChunkView, s: VmView, op: int) -> Result<VmView, FailView> {
    if s.ob is Some {
        Err(fail_at(c, op, "Nested obligations are not supported"@))
    } else {
        match pop_ident(c, s, op, "BeginObligation expects obligation name identifier"@) {
            Err(e) => Err(e),
            Ok((name, s1)) => Ok(VmView {
                ob: Some(ObligationView { name, party_role: None, action: None, due: None, condition: None }),
                ..s1
            }),
        }
    }
}

pub open spec fn spec_op_end_obligation(c: ChunkView, s: VmView, op: int) -> Result<VmView, FailView> {
    match s.ob {
        None => Err(fail_at(c, op, "EndObligation without BeginObligation"@)),
        Some(o) => if entry_keys(s.contract.obligations).contains(o.name) {
            Err(fail_at(c, op, "Duplicate obligation name '"@ + o.name + "'"@))
        } else {
            Ok(VmView {
                ob: None,
                contract: ContractView { obligations: entry_insert(s.contract.obligations, o.name, o), ..s.contract },
                ..s
            })
        },
    }
}

pub open spec fn spec_op_begin_remedy(c: ChunkView, s: VmView, op: int) -> Result<VmView, FailView> {
    if s.rem is Some {
        Err(fail_at(c, op, "Nested remedies are not supported"@))
    } else {
        match pop_ident(c, s, op, "BeginRemedy expects breach target identifier"@) {
            Err(e) => Err(e),
            Ok((target, s1)) => match pop_ident(c, s1, op, "BeginRemedy expects remedy name identifier"@) {
                Err(e) => Err(e),
                Ok((name, s2)) => Ok(VmView {
                    rem: Some(RemedyView {
                        name,
                        breach_target: target,
                        party_role: None,
                        action: None,
                        due: None,
                        condition: None,
                        phases: Seq::empty(),
                    }),
                    ..s2
                }),
            },
        }
    }
}

pub open spec fn spec_op_end_remedy(c: ChunkView, s: VmView, op: int) -> Result<VmView, FailView> {
    if s.phase is Some {
        Err(fail_at(c, op, "EndRemedy encountered while a phase is still open"@))
    } else {
        match s.rem {
            None => Err(fail_at(c, op, "EndRemedy without BeginRemedy"@)),
            Some(r) => if entry_keys(s.contract.remedies).contains(r.name) {
                Err(fail_at(c, op, "Duplicate remedy name '"@ + r.name + "'"@))
            } else {
                Ok(VmView {
                    rem: None,
                    contract: ContractView { remedies: entry_insert(s.contract.remedies, r.name, r), ..s.contract },
                    ..s
                })
            },
        }
    }
}

pub open spec fn spec_op_begin_phase(c: ChunkView, s: VmView, op: int) -> Result<VmView, FailView> {
    if s.phase is Some {
        Err(fail_at(c, op, "Nested phases are not supported"@))
    } else if s.rem is None {
        Err(fail_at(c, op, "BeginPhase must occur inside a remedy"@))
    } else {
        match pop_ident(c, s, op, "BeginPhase expects phase header constant"@) {
            Err(e) => Err(e),
            Ok((first, s1)) => {
                let header: Result<(Seq<char>, Option<Seq<char>>, VmView), FailView> = match breach_of_inner(first) {
                    Some(t) => match pop_ident(c, s1, op, "BeginPhase expected phase name before breach_of(...) marker"@) {
                        Err(e) => Err(e),
                        Ok((name, s2)) => Ok((name, Some(t), s2)),
                    },
                    None => Ok((first, None, s1)),
                };
                match header {
                    Err(e) => Err(e),
                    Ok((name, target, s2)) => Ok(VmView {
                        phase: Some(PhaseView {
                            name,
                            breach_target: target,
                            party_role: None,
                            action: None,
                            due: None,
                            condition: None,
                        }),
                        ..s2
                    }),
                }
            },
        }
    }
}

/// Some phase in `ps` is named `n`.
pub open spec fn has_phase_named(ps: Seq<PhaseView>, n: Seq<char>) -> bool {
    exists|k: int| 0 <= k < ps.len() && (#[trigger] ps[k]).name == n
}

pub open spec fn spec_op_end_phase(c: ChunkView, s: VmView, op: int) -> Result<VmView, FailView> {
    match s.phase {
        None => Err(fail_at(c, op, "EndPhase without BeginPhase"@)),
        Some(p) => match s.rem {
            None => Err(fail_at(c, op, "EndPhase must occur inside a remedy"@)),
            Some(r) => if has_phase_named(r.phases, p.name) {
                Err(fail_at(c, op, "Duplicate phase name '"@ + p.name + "'"@))
            } else {
                Ok(VmView { phase: None, rem: Some(RemedyView { phases: r.phases.push(p), ..r }), ..s })
            },
        },
    }
}

/// Which open declaration a field goes to: the phase, else the obligation,
/// else the remedy.
pub open spec fn set_party_of(s: VmView, v: Seq<char>) -> Option<VmView> {
    if s.phase is Some {
        Some(VmView { phase: Some(PhaseView { party_role: Some(v), ..s.phase->0 }), ..s })
    } else if s.ob is Some {
        Some(VmView { ob: Some(ObligationView { party_role: Some(v), ..s.ob->0 }), ..s })
    } else if s.rem is Some {
        Some(VmView { rem: Some(RemedyView { party_role: Some(v), ..s.rem->0 }), ..s })
    } else {
        None
    }
}

pub open spec fn set_action_of(s: VmView, v: Seq<char>) -> Option<VmView> {
    if s.phase is Some {
        Some(VmView { phase: Some(PhaseView { action: Some(v), ..s.phase->0 }), ..s })
    } else if s.ob is Some {
        Some(VmView { ob: Some(ObligationView { action: Some(v), ..s.ob->0 }), ..s })
    } else if s.rem is Some {
        Some(VmView { rem: Some(RemedyView { action: Some(v), ..s.rem->0 }), ..s })
    } else {
        None
    }
}

pub open spec fn set_due_of(s: VmView, v: DueView) -> Option<VmView> {
    if s.phase is Some {
        Some(VmView { phase: Some(PhaseView { due: Some(v), ..s.phase->0 }), ..s })
    } else if s.ob is Some {
        Some(VmView { ob: Some(ObligationView { due: Some(v), ..s.ob->0 }), ..s })
    } else if s.rem is Some {
        Some(VmView { rem: Some(RemedyView { due: Some(v), ..s.rem->0 }), ..s })
    } else {
        None
    }
}

pub open spec fn set_condition_of(s: VmView, v: ConditionView) -> Option<VmView> {
    if s.phase is Some {
        Some(VmView { phase: Some(PhaseView { condition: Some(v), ..s.phase->0 }), ..s })
    } else if s.ob is Some {
        Some(VmView { ob: Some(ObligationView { condition: Some(v), ..s.ob->0 }), ..s })
    } else if s.rem is Some {
        Some(VmView { rem: Some(RemedyView { condition: Some(v), ..s.rem->0 }), ..s })
    } else {
        None
    }
}

pub open spec fn spec_op_set_party(c: ChunkView, s: VmView, op: int) -> Result<VmView, FailView> {
    match pop_ident(c, s, op, "SetParty expects role identifier"@) {
        Err(e) => Err(e),
        Ok((v, s1)) => match set_party_of(s1, v) {
            Some(s2) => Ok(s2),
            None => Err(fail_at(c, op, "SetParty used outside declaration scope"@)),
        },
    }
}

pub open spec fn spec_op_set_action(c: ChunkView, s: VmView, op: int) -> Result<VmView, FailView> {
    match pop_str(c, s, op, "SetAction expects action string"@) {
        Err(e) => Err(e),
        Ok((v, s1)) => match set_action_of(s1, v) {
            Some(s2) => Ok(s2),
            None => Err(fail_at(c, op, "SetAction used outside declaration scope"@)),
        },
    }
}

pub open spec fn spec_op_set_due(c: ChunkView, s: VmView, op: int) -> Result<VmView, FailView> {
    match pop_any(c, s, op) {
        Err(e) => Err(e),
        Ok((raw, s1)) => match due_of(c, op, raw) {
            Err(e) => Err(e),
            Ok(d) => match set_due_of(s1, d) {
                Some(s2) => Ok(s2),
                None => Err(fail_at(c, op, "SetDue used outside declaration scope"@)),
            },
        },
    }
}

pub open spec fn spec_op_set_condition(c: ChunkView, s: VmView, op: int) -> Result<VmView, FailView> {
    if s.conds.len() == 0 {
        Err(fail_at(c, op, "SetCondition expects built condition"@))
    } else {
        let s1 = VmView { conds: s.conds.drop_last(), ..s };
        match set_condition_of(s1, s.conds.last()) {
            Some(s2) => Ok(s2),
            None => Err(fail_at(c, op, "SetCondition used outside declaration scope"@)),
        }
    }
}

/// A condition atom: pops its argument and pushes `mk(argument)`.
pub open spec fn spec_op_atom(c: ChunkView, s: VmView, op: int, which: OpCode) -> Result<VmView, FailView> {
    let ctx = match which {
        OpCode::ConditionAfter => "ConditionAfter expects identifier argument"@,
        OpCode::ConditionBefore => "ConditionBefore expects identifier argument"@,
        OpCode::ConditionSatisfied => "ConditionSatisfied expects identifier argument"@,
        _ => "ConditionOccurred expects identifier argument"@,
    };
    match pop_ident(c, s, op, ctx) {
        Err(e) => Err(e),
        Ok((arg, s1)) => {
            let cond = match which {
                OpCode::ConditionAfter => ConditionView::After(arg),
                OpCode::ConditionBefore => ConditionView::Before(arg),
                OpCode::ConditionSatisfied => ConditionView::Satisfied(arg),
                _ => ConditionView::Occurred(arg),
            };
            Ok(VmView { conds: s1.conds.push(cond), ..s1 })
        },
    }
}

/// `and` / `or`: pops the right operand, then the left, and pushes the pair.
pub open spec fn spec_op_combine(c: ChunkView, s: VmView, op: int, is_and: bool) -> Result<VmView, FailView> {
    if s.conds.len() == 0 {
        Err(fail_at(c, op, if is_and { "ConditionAnd missing right operand"@ } else { "ConditionOr missing right operand"@ }))
    } else if s.conds.len() == 1 {
        Err(fail_at(c, op, if is_and { "ConditionAnd missing left operand"@ } else { "ConditionOr missing left operand"@ }))
    } else {
        let right = s.conds.last();
        let left = s.conds.drop_last().last();
        let rest = s.conds.drop_last().drop_last();
        let cond = if is_and {
            ConditionView::And(Box::new(left), Box::new(right))
        } else {
            ConditionView::Or(Box::new(left), Box::new(right))
        };
        Ok(VmView { conds: rest.push(cond), ..s })
    }
}

/// What an instruction other than `Return` does (its opcode byte already read).
pub open spec fn spec_exec_op(c: ChunkView, s: VmView, code: OpCode, op: int) -> Result<VmView, FailView> {
    match code {
        OpCode::Constant => spec_op_constant(c, s, op),
        OpCode::DefineParty => spec_op_define_party(c, s, op),
        OpCode::DefineEvent => spec_op_define_event(c, s, op),
        OpCode::DefineTerm => spec_op_define_term(c, s, op),
        OpCode::BeginObligation => spec_op_begin_obligation(c, s, op),
        OpCode::SetParty => spec_op_set_party(c, s, op),
        OpCode::SetAction => spec_op_set_action(c, s, op),
        OpCode::SetDue => spec_op_set_due(c, s, op),
        OpCode::ConditionAnd => spec_op_combine(c, s, op, true),
        OpCode::ConditionOr => spec_op_combine(c, s, op, false),
        OpCode::SetCondition => spec_op_set_condition(c, s, op),
        OpCode::EndObligation => spec_op_end_obligation(c, s, op),
        OpCode::BeginRemedy => spec_op_begin_remedy(c, s, op),
        OpCode::EndRemedy => spec_op_end_remedy(c, s, op),
        OpCode::BeginPhase => spec_op_begin_phase(c, s, op),
        OpCode::EndPhase => spec_op_end_phase(c, s, op),
        _ => spec_op_atom(c, s, op, code),
    }
}

/// The outcome of one instruction.
pub enum Step {
    Next(VmView),
    Done(ContractView),
    Fail(FailView),
}

pub open spec fn step(c: ChunkView, s: VmView) -> Step {
    let op = s.ip;
    if op < 0 || op >= c.code.len() {
        Step::Fail(fail_at(c, op, "Unexpected end of bytecode"@))
    } else {
        let s1 = VmView { ip: op + 1, ..s };
        match byte_opcode(c.code[op]) {
            None => Step::Fail(fail_at(c, op, "Unknown opcode"@)),
            Some(OpCode::Return) => if s1.phase is Some || s1.rem is Some || s1.ob is Some {
                Step::Fail(fail_at(c, op, "Return reached while declaration scope is still open"@))
            } else {
                Step::Done(s1.contract)
            },
            Some(code) => match spec_exec_op(c, s1, code, op) {
                Ok(s2) => Step::Next(s2),
                Err(e) => Step::Fail(e),
            },
        }
    }
}

pub proof fn lemma_step_advances(c: ChunkView, s: VmView)
    ensures
        step(c, s) matches Step::Next(s2) ==> s.ip < s2.ip <= c.code.len(),
{
}

/// Runs the chunk from state `s` until `Return` or an error.
pub open spec fn run_outcome(c: ChunkView, s: VmView) -> Result<ContractView, FailView>
    decreases c.code.len() - s.ip,
{
    match step(c, s) {
        Step::Next(s2) => {
            proof {
                lemma_step_advances(c, s);
            }
            run_outcome(c, s2)
        },
        Step::Done(k) => Ok(k),
        Step::Fail(e) => Err(e),
    }
}

pub struct VM {
    chunk: Chunk,
    ip: usize,
    stack: Vec<Value>,
    condition_stack: Vec<ConditionExpr>,
    contract: ContractDef,
    current_obligation: Option<ObligationDef>,
    current_remedy: Option<RemedyDef>,
    current_phase: Option<PhaseDef>,
}

impl View for VM {
    type V = VmView;

    closed spec fn view(&self) -> VmView {
        VmView {
            ip: self.ip as int,
            stack: self.stack@.map_values(|v: Value| v@),
            conds: views(self.condition_stack@),
            contract: self.contract@,
            ob: opt_view(self.current_obligation),
            rem: opt_view(self.current_remedy),
            phase: opt_view(self.current_phase),
        }
    }
}

/// The outcome of an instruction is the specified one.
pub open spec fn outcome_is(r: Result<(), KontraError>, after: VmView, expected: Result<VmView, FailView>) -> bool {
    match expected {
        Ok(s2) => r is Ok && after == s2,
        Err(f) => r is Err && fail_matches(r->Err_0, f),
    }
}

impl VM {
    closed spec fn inv(&self) -> bool {
        self.contract.wf()
    }

    closed spec fn code(&self) -> ChunkView {
        self.chunk@
    }

    /// Runs a chunk and returns the contract it builds (see `run_outcome`).
    pub fn interpret(chunk: Chunk) -> (res: Result<ContractDef, KontraError>)
        ensures
            match run_outcome(chunk@, initial_vm()) {
                Ok(k) => res is Ok && res->Ok_0@ == k && res->Ok_0.wf(),
                Err(f) => res is Err && fail_matches(res->Err_0, f),
            },
    {
        let ghost c = chunk@;
        let mut vm = Self::new(chunk);
        vm.run()
    }

    fn new(chunk: Chunk) -> (res: Self)
        ensures
            res.inv(),
            res@ == initial_vm(),
            res.code() == chunk@,
    {
        let res = VM {
            chunk,
            ip: 0,
            stack: Vec::new(),
            condition_stack: Vec::new(),
            contract: ContractDef::empty(),
            current_obligation: None,
            current_remedy: None,
            current_phase: None,
        };
        proof {
            res.contract.parties.lemma_view();
            res.contract.events.lemma_view();
            res.contract.terms.lemma_view();
            res.contract.obligations.lemma_view();
            res.contract.remedies.lemma_view();
            assert(res.contract.parties@ =~= Seq::<(Seq<char>, PartyView)>::empty());
            assert(res.contract.events@ =~= Seq::<(Seq<char>, EventDefView)>::empty());
            assert(res.contract.terms@ =~= Seq::<(Seq<char>, TermView)>::empty());
            assert(res.contract.obligations@ =~= Seq::<(Seq<char>, ObligationView)>::empty());
            assert(res.contract.remedies@ =~= Seq::<(Seq<char>, RemedyView)>::empty());
            assert(res.contract@ =~~= empty_contract_view());
            assert(res.stack@.map_values(|v: Value| v@) =~= Seq::<ValueView>::empty());
            assert(views(res.condition_stack@) =~= Seq::<ConditionView>::empty());
            assert(res@ =~~= initial_vm());
        }
        res
    }

    fn runtime_error(&self, op_index: usize, message: &str) -> (e: KontraError)
        ensures
            fail_matches(e, fail_at(self.code(), op_index as int, message@)),
    {
        let line = if op_index < self.chunk.lines.len() {
            Some(self.chunk.lines[op_index])
        } else if self.chunk.lines.len() > 0 {
            Some(self.chunk.lines[self.chunk.lines.len() - 1])
        } else {
            None
        };
        KontraError::runtime(line, message)
    }

    fn run(&mut self) -> (res: Result<ContractDef, KontraError>)
        requires
            old(self).inv(),
        ensures
            match run_outcome(old(self).code(), old(self)@) {
                Ok(k) => res is Ok && res->Ok_0@ == k && res->Ok_0.wf(),
                Err(f) => res is Err && fail_matches(res->Err_0, f),
            },
    {
        let ghost c = self.code();
        let ghost target = run_outcome(c, self@);
        loop
            invariant
                self.inv(),
                self.code() == c,
                c == old(self).code(),
                target == run_outcome(c, old(self)@),
                run_outcome(c, self@) == target,
            decreases c.code.len() - self@.ip,
        {
            proof {
                lemma_step_advances(c, self@);
            }
            let ghost cur = self@;
            match self.exec_step() {
                None => {},
                Some(r) => return r,
            }
        }
    }

    /// Runs one instruction: none when the machine goes on, else the result.
    fn exec_step(&mut self) -> (res: Option<Result<ContractDef, KontraError>>)
        requires
            old(self).inv(),
        ensures
            final(self).inv(),
            final(self).code() == old(self).code(),
            match step(old(self).code(), old(self)@) {
                Step::Next(s2) => res is None && final(self)@ == s2,
                Step::Done(k) => res matches Some(Ok(kd)) && kd@ == k && kd.wf(),
                Step::Fail(f) => res matches Some(Err(e)) && fail_matches(e, f),
            },
    {
        let op_index = self.ip;
        if op_index >= self.chunk.code.len() {
            return Some(Err(self.runtime_error(op_index, "Unexpected end of bytecode")));
        }
        let byte = self.chunk.code[op_index];
        self.ip = op_index + 1;
        let op = match OpCode::from_byte(byte) {
            Some(op) => op,
            None => return Some(Err(self.runtime_error(op_index, "Unknown opcode"))),
        };
        if op == OpCode::Return {
            if self.current_phase.is_some() || self.current_remedy.is_some() || self.current_obligation.is_some() {
                return Some(Err(self.runtime_error(op_index, "Return reached while declaration scope is still open")));
            }
            let k = self.contract.clone();
            return Some(Ok(k));
        }
        match self.exec_op(op, op_index) {
            Ok(()) => None,
            Err(e) => Some(Err(e)),
        }
    }

    fn exec_op(&mut self, op: OpCode, op_index: usize) -> (r: Result<(), KontraError>)
        requires
            old(self).inv(),
            op != OpCode::Return,
        ensures
            final(self).inv(),
            final(self).code() == old(self).code(),
            outcome_is(r, final(self)@, spec_exec_op(old(self).code(), old(self)@, op, op_index as int)),
    {
        match op {
            OpCode::Constant => self.op_constant(op_index),
            OpCode::DefineParty => self.op_define_party(op_index),
            OpCode::DefineEvent => self.op_define_event(op_index),
            OpCode::DefineTerm => self.op_define_term(op_index),
            OpCode::BeginObligation => self.op_begin_obligation(op_index),
            OpCode::SetParty => self.op_set_party(op_index),
            OpCode::SetAction => self.op_set_action(op_index),
            OpCode::SetDue => self.op_set_due(op_index),
            OpCode::ConditionAnd => self.op_combine(op_index, true),
            OpCode::ConditionOr => self.op_combine(op_index, false),
            OpCode::SetCondition => self.op_set_condition(op_index),
            OpCode::EndObligation => self.op_end_obligation(op_index),
            OpCode::BeginRemedy => self.op_begin_remedy(op_index),
            OpCode::EndRemedy => self.op_end_remedy(op_index),
            OpCode::BeginPhase => self.op_begin_phase(op_index),
            OpCode::EndPhase => self.op_end_phase(op_index),
            _ => self.op_atom(op_index, op),
        }
    }

    fn pop_value(&mut self, op_index: usize) -> (res: Result<Value, KontraError>)
        requires
            old(self).inv(),
        ensures
            final(self).inv(),
            final(self).code() == old(self).code(),
            match pop_any(old(self).code(), old(self)@, op_index as int) {
                Ok((v, s1)) => res is Ok && res->Ok_0@ == v && final(self)@ == s1,
                Err(f) => res is Err && fail_matches(res->Err_0, f),
            },
    {
        match self.stack.pop() {
            Some(v) => {
                proof {
                    assert(self.stack@.map_values(|v: Value| v@) =~= old(self)@.stack.drop_last());
                }
                Ok(v)
            },
            None => Err(self.runtime_error(op_index, "Stack underflow")),
        }
    }

    fn pop_identifier(&mut self, op_index: usize, context: &str) -> (res: Result<String, KontraError>)
        requires
            old(self).inv(),
        ensures
            final(self).inv(),
            final(self).code() == old(self).code(),
            match pop_ident(old(self).code(), old(self)@, op_index as int, context@) {
                Ok((v, s1)) => res is Ok && res->Ok_0@ == v && final(self)@ == s1,
                Err(f) => res is Err && fail_matches(res->Err_0, f),
            },
    {
        match self.pop_value(op_index) {
            Ok(Value::Identifier(s)) => Ok(s),
            Ok(_) => Err(self.runtime_error(op_index, context)),
            Err(e) => Err(e),
        }
    }

    fn pop_string(&mut self, op_index: usize, context: &str) -> (res: Result<String, KontraError>)
        requires
            old(self).inv(),
        ensures
            final(self).inv(),
            final(self).code() == old(self).code(),
            match pop_str(old(self).code(), old(self)@, op_index as int, context@) {
                Ok((v, s1)) => res is Ok && res->Ok_0@ == v && final(self)@ == s1,
                Err(f) => res is Err && fail_matches(res->Err_0, f),
            },
    {
        match self.pop_value(op_index) {
            Ok(Value::Str(s)) => Ok(s),
            Ok(_) => Err(self.runtime_error(op_index, context)),
            Err(e) => Err(e),
        }
    }

    fn pop_number(&mut self, op_index: usize, context: &str) -> (res: Result<u64, KontraError>)
        requires
            old(self).inv(),
        ensures
            final(self).inv(),
            final(self).code() == old(self).code(),
            match pop_num(old(self).code(), old(self)@, op_index as int, context@) {
                Ok((v, s1)) => res is Ok && res->Ok_0 == v && final(self)@ == s1,
                Err(f) => res is Err && fail_matches(res->Err_0, f),
            },
    {
        match self.pop_value(op_index) {
            Ok(Value::Num(n)) => Ok(n),
            Ok(_) => Err(self.runtime_error(op_index, context)),
            Err(e) => Err(e),
        }
    }

    fn op_constant(&mut self, op_index: usize) -> (r: Result<(), KontraError>)
        requires
            old(self).inv(),
        ensures
            final(self).inv(),
            final(self).code() == old(self).code(),
            outcome_is(r, final(self)@, spec_op_constant(old(self).code(), old(self)@, op_index as int)),
    {
        if self.ip >= self.chunk.code.len() {
            return Err(self.runtime_error(op_index, "Unexpected end of bytecode"));
        }
        let idx = self.chunk.code[self.ip] as usize;
        self.ip = self.ip + 1;
        if idx < self.chunk.constants.len() {
            let v = self.chunk.constants[idx].clone();
            self.stack.push(v);
            proof {
                assert(self.stack@.map_values(|v: Value| v@) =~= old(self)@.stack.push(old(self).code().constants[idx as int]));
            }
            Ok(())
        } else {
            Err(self.runtime_error(op_index, "Constant index out of bounds"))
        }
    }

    fn op_define_party(&mut self, op_index: usize) -> (r: Result<(), KontraError>)
        requires
            old(self).inv(),
        ensures
            final(self).inv(),
            final(self).code() == old(self).code(),
            outcome_is(r, final(self)@, spec_op_define_party(old(self).code(), old(self)@, op_index as int)),
    {
        let name = match self.pop_string(op_index, "DefineParty expects party name string on stack") {
            Ok(n) => n,
            Err(e) => return Err(e),
        };
        let role = match self.pop_identifier(op_index, "DefineParty expects role identifier on stack") {
            Ok(n) => n,
            Err(e) => return Err(e),
        };
        proof {
            self.contract.parties.lemma_view();
        }
        if self.contract.parties.contains_key(role.as_str()) {
            let mut msg = owned("Duplicate party role '");
            append_str(&mut msg, role.as_str());
            append_str(&mut msg, "'");
            return Err(self.runtime_error(op_index, msg.as_str()));
        }
        let ghost before = self.contract.parties;
        let party = Party { role: role.clone(), name };
        self.contract.parties.insert(role, party);
        proof {
            NameMap::lemma_insert_view(before, self.contract.parties, party.role@, party);
        }
        Ok(())
    }

    fn op_define_event(&mut self, op_index: usize) -> (r: Result<(), KontraError>)
        requires
            old(self).inv(),
        ensures
            final(self).inv(),
            final(self).code() == old(self).code(),
            outcome_is(r, final(self)@, spec_op_define_event(old(self).code(), old(self)@, op_index as int)),
    {
        let arg = match self.pop_value(op_index) {
            Ok(v) => v,
            Err(e) => return Err(e),
        };
        let name = match self.pop_identifier(op_index, "DefineEvent expects event name identifier") {
            Ok(n) => n,
            Err(e) => return Err(e),
        };
        proof {
            self.contract.events.lemma_view();
        }
        if self.contract.events.contains_key(name.as_str()) {
            let mut msg = owned("Duplicate event name '");
            append_str(&mut msg, name.as_str());
            append_str(&mut msg, "'");
            return Err(self.runtime_error(op_index, msg.as_str()));
        }
        let event = match arg {
            Value::Str(date_str) => match parse_date(date_str.as_str()) {
                Some(day) => EventDef::DateEvent(day),
                None => return Err(self.runtime_error(op_index, "DefineEvent date must be YYYY-MM-DD")),
            },
            Value::Identifier(role) => EventDef::TriggeredEvent(role),
            _ => return Err(self.runtime_error(op_index, "DefineEvent expects date string or triggering party identifier")),
        };
        let ghost before = self.contract.events;
        let ghost ev = event;
        self.contract.events.insert(name, event);
        proof {
            NameMap::lemma_insert_view(before, self.contract.events, name@, ev);
        }
        Ok(())
    }

    fn breach_of_wrapper(raw: &str) -> (res: Option<String>)
        ensures
            opt_view(res) == breach_of_inner(raw@),
    {
        let cs = chars_of(raw);
        let n = cs.len();
        if n > 11 {
            let prefix = text_range(&cs, 0, 10);
            if text_eq(prefix.as_str(), "breach_of(") && cs[n - 1] == ')' {
                proof {
                    assert(prefix@ =~= raw@.take(10));
                }
                return Some(text_range(&cs, 10, n - 1));
            }
            proof {
                assert(prefix@ =~= raw@.take(10));
            }
        }
        None
    }

    fn unit_from_name(u: &str) -> (res: Option<DurationUnit>)
        ensures
            res == unit_named(u@),
    {
        if text_eq(u, "calendar_days") {
            Some(DurationUnit::CalendarDays)
        } else if text_eq(u, "business_days") {
            Some(DurationUnit::BusinessDays)
        } else {
            None
        }
    }

    fn op_define_term(&mut self, op_index: usize) -> (r: Result<(), KontraError>)
        requires
            old(self).inv(),
        ensures
            final(self).inv(),
            final(self).code() == old(self).code(),
            outcome_is(r, final(self)@, spec_op_define_term(old(self).code(), old(self)@, op_index as int)),
    {
        let anchor_raw = match self.pop_identifier(op_index, "DefineTerm expects anchor identifier") {
            Ok(n) => n,
            Err(e) => return Err(e),
        };
        let unit_raw = match self.pop_string(op_index, "DefineTerm expects duration unit string") {
            Ok(n) => n,
            Err(e) => return Err(e),
        };
        let amount_raw = match self.pop_number(op_index, "DefineTerm expects numeric duration amount") {
            Ok(n) => n,
            Err(e) => return Err(e),
        };
        let name = match self.pop_identifier(op_index, "DefineTerm expects term name identifier") {
            Ok(n) => n,
            Err(e) => return Err(e),
        };
        proof {
            self.contract.terms.lemma_view();
        }
        if self.contract.terms.contains_key(name.as_str()) {
            let mut msg = owned("Duplicate term name '");
            append_str(&mut msg, name.as_str());
            append_str(&mut msg, "'");
            return Err(self.runtime_error(op_index, msg.as_str()));
        }
        let amount: u32 = if amount_raw > u32::MAX as u64 { u32::MAX } else { amount_raw as u32 };
        let unit = match Self::unit_from_name(unit_raw.as_str()) {
            Some(u) => u,
            None => return Err(self.runtime_error(op_index, "Unknown term duration unit")),
        };
        let anchor = match Self::breach_of_wrapper(anchor_raw.as_str()) {
            Some(target) => TermAnchor::BreachOf(target),
            None => TermAnchor::Event(anchor_raw),
        };
        let term = Term { name: name.clone(), duration: Duration { amount, unit }, anchor, calendar_ref: None };
        let ghost before = self.contract.terms;
        let ghost t = term;
        self.contract.terms.insert(name, term);
        proof {
            NameMap::lemma_insert_view(before, self.contract.terms, t.name@, t);
        }
        Ok(())
    }

    fn op_begin_obligation(&mut self, op_index: usize) -> (r: Result<(), KontraError>)
        requires
            old(self).inv(),
        ensures
            final(self).inv(),
            final(self).code() == old(self).code(),
            outcome_is(r, final(self)@, spec_op_begin_obligation(old(self).code(), old(self)@, op_index as int)),
    {
        if self.current_obligation.is_some() {
            return Err(self.runtime_error(op_index, "Nested obligations are not supported"));
        }
        let name = match self.pop_identifier(op_index, "BeginObligation expects obligation name identifier") {
            Ok(n) => n,
            Err(e) => return Err(e),
        };
        self.current_obligation = Some(ObligationDef { name, party_role: None, action: None, due: None, condition: None });
        Ok(())
    }

    fn op_end_obligation(&mut self, op_index: usize) -> (r: Result<(), KontraError>)
        requires
            old(self).inv(),
        ensures
            final(self).inv(),
            final(self).code() == old(self).code(),
            outcome_is(r, final(self)@, spec_op_end_obligation(old(self).code(), old(self)@, op_index as int)),
    {
        let obligation = match self.current_obligation.take() {
            Some(o) => o,
            None => return Err(self.runtime_error(op_index, "EndObligation without BeginObligation")),
        };
        proof {
            self.contract.obligations.lemma_view();
        }
        if self.contract.obligations.contains_key(obligation.name.as_str()) {
            let mut msg = owned("Duplicate obligation name '");
            append_str(&mut msg, obligation.name.as_str());
            append_str(&mut msg, "'");
            return Err(self.runtime_error(op_index, msg.as_str()));
        }
        let ghost before = self.contract.obligations;
        let ghost o = obligation;
        self.contract.obligations.insert(obligation.name.clone(), obligation);
        proof {
            NameMap::lemma_insert_view(before, self.contract.obligations, o.name@, o);
        }
        Ok(())
    }

    fn op_begin_remedy(&mut self, op_index: usize) -> (r: Result<(), KontraError>)
        requires
            old(self).inv(),
        ensures
            final(self).inv(),
            final(self).code() == old(self).code(),
            outcome_is(r, final(self)@, spec_op_begin_remedy(old(self).code(), old(self)@, op_index as int)),
    {
        if self.current_remedy.is_some() {
            return Err(self.runtime_error(op_index, "Nested remedies are not supported"));
        }
        let breach_target = match self.pop_identifier(op_index, "BeginRemedy expects breach target identifier") {
            Ok(n) => n,
            Err(e) => return Err(e),
        };
        let name = match self.pop_identifier(op_index, "BeginRemedy expects remedy name identifier") {
            Ok(n) => n,
            Err(e) => return Err(e),
        };
        let phases: Vec<PhaseDef> = Vec::new();
        self.current_remedy = Some(RemedyDef {
            name,
            breach_target,
            party_role: None,
            action: None,
            due: None,
            condition: None,
            phases,
        });
        proof {
            assert(views(phases@) =~= Seq::<PhaseView>::empty());
        }
        Ok(())
    }

    fn op_end_remedy(&mut self, op_index: usize) -> (r: Result<(), KontraError>)
        requires
            old(self).inv(),
        ensures
            final(self).inv(),
            final(self).code() == old(self).code(),
            outcome_is(r, final(self)@, spec_op_end_remedy(old(self).code(), old(self)@, op_index as int)),
    {
        if self.current_phase.is_some() {
            return Err(self.runtime_error(op_index, "EndRemedy encountered while a phase is still open"));
        }
        let remedy = match self.current_remedy.take() {
            Some(r) => r,
            None => return Err(self.runtime_error(op_index, "EndRemedy without BeginRemedy")),
        };
        proof {
            self.contract.remedies.lemma_view();
        }
        if self.contract.remedies.contains_key(remedy.name.as_str()) {
            let mut msg = owned("Duplicate remedy name '");
            append_str(&mut msg, remedy.name.as_str());
            append_str(&mut msg, "'");
            return Err(self.runtime_error(op_index, msg.as_str()));
        }
        let ghost before = self.contract.remedies;
        let ghost rv = remedy;
        self.contract.remedies.insert(remedy.name.clone(), remedy);
        proof {
            NameMap::lemma_insert_view(before, self.contract.remedies, rv.name@, rv);
        }
        Ok(())
    }

    fn op_begin_phase(&mut self, op_index: usize) -> (r: Result<(), KontraError>)
        requires
            old(self).inv(),
        ensures
            final(self).inv(),
            final(self).code() == old(self).code(),
            outcome_is(r, final(self)@, spec_op_begin_phase(old(self).code(), old(self)@, op_index as int)),
    {
        if self.current_phase.is_some() {
            return Err(self.runtime_error(op_index, "Nested phases are not supported"));
        }
        if self.current_remedy.is_none() {
            return Err(self.runtime_error(op_index, "BeginPhase must occur inside a remedy"));
        }
        let first = match self.pop_identifier(op_index, "BeginPhase expects phase header constant") {
            Ok(n) => n,
            Err(e) => return Err(e),
        };
        let (name, breach_target) = match Self::breach_of_wrapper(first.as_str()) {
            Some(target) => {
                let phase_name = match self.pop_identifier(
                    op_index,
                    "BeginPhase expected phase name before breach_of(...) marker",
                ) {
                    Ok(n) => n,
                    Err(e) => return Err(e),
                };
                (phase_name, Some(target))
            },
            None => (first, None),
        };
        self.current_phase = Some(PhaseDef {
            name,
            breach_target,
            party_role: None,
            action: None,
            due: None,
            condition: None,
        });
        Ok(())
    }

    #[verifier::loop_isolation(false)]
    fn op_end_phase(&mut self, op_index: usize) -> (r: Result<(), KontraError>)
        requires
            old(self).inv(),
        ensures
            final(self).inv(),
            final(self).code() == old(self).code(),
            outcome_is(r, final(self)@, spec_op_end_phase(old(self).code(), old(self)@, op_index as int)),
    {
        let phase = match self.current_phase.take() {
            Some(p) => p,
            None => return Err(self.runtime_error(op_index, "EndPhase without BeginPhase")),
        };
        let mut remedy = match self.current_remedy.take() {
            Some(r) => r,
            None => return Err(self.runtime_error(op_index, "EndPhase must occur inside a remedy")),
        };
        let ghost ps = views(remedy.phases@);
        let mut k: usize = 0;
        while k < remedy.phases.len()
            invariant
                ps == views(remedy.phases@),
                k <= ps.len(),
                forall|j: int| 0 <= j < k ==> ps[j].name != phase.name@,
            decreases ps.len() - k,
        {
            if text_eq(remedy.phases[k].name.as_str(), phase.name.as_str()) {
                proof {
                    assert(ps[k as int].name == phase.name@);
                    assert(has_phase_named(ps, phase.name@));
                }
                let mut msg = owned("Duplicate phase name '");
                append_str(&mut msg, phase.name.as_str());
                append_str(&mut msg, "'");
                return Err(self.runtime_error(op_index, msg.as_str()));
            }
            k = k + 1;
        }
        let ghost pv = phase@;
        remedy.phases.push(phase);
        proof {
            assert(views(remedy.phases@) =~= ps.push(pv));
        }
        self.current_remedy = Some(remedy);
        Ok(())
    }

    fn op_set_party(&mut self, op_index: usize) -> (r: Result<(), KontraError>)
        requires
            old(self).inv(),
        ensures
            final(self).inv(),
            final(self).code() == old(self).code(),
            outcome_is(r, final(self)@, spec_op_set_party(old(self).code(), old(self)@, op_index as int)),
    {
        let value = match self.pop_identifier(op_index, "SetParty expects role identifier") {
            Ok(n) => n,
            Err(e) => return Err(e),
        };
        match self.current_phase.take() {
            Some(mut p) => {
                p.party_role = Some(value);
                self.current_phase = Some(p);
                return Ok(());
            },
            None => {},
        }
        match self.current_obligation.take() {
            Some(mut o) => {
                o.party_role = Some(value);
                self.current_obligation = Some(o);
                return Ok(());
            },
            None => {},
        }
        match self.current_remedy.take() {
            Some(mut rm) => {
                rm.party_role = Some(value);
                self.current_remedy = Some(rm);
                return Ok(());
            },
            None => {},
        }
        Err(self.runtime_error(op_index, "SetParty used outside declaration scope"))
    }

    fn op_set_action(&mut self, op_index: usize) -> (r: Result<(), KontraError>)
        requires
            old(self).inv(),
        ensures
            final(self).inv(),
            final(self).code() == old(self).code(),
            outcome_is(r, final(self)@, spec_op_set_action(old(self).code(), old(self)@, op_index as int)),
    {
        let value = match self.pop_string(op_index, "SetAction expects action string") {
            Ok(n) => n,
            Err(e) => return Err(e),
        };
        match self.current_phase.take() {
            Some(mut p) => {
                p.action = Some(value);
                self.current_phase = Some(p);
                return Ok(());
            },
            None => {},
        }
        match self.current_obligation.take() {
            Some(mut o) => {
                o.action = Some(value);
                self.current_obligation = Some(o);
                return Ok(());
            },
            None => {},
        }
        match self.current_remedy.take() {
            Some(mut rm) => {
                rm.action = Some(value);
                self.current_remedy = Some(rm);
                return Ok(());
            },
            None => {},
        }
        Err(self.runtime_error(op_index, "SetAction used outside declaration scope"))
    }

    fn parse_inline_due(&self, raw: &str, op_index: usize) -> (res: Result<DueDef, KontraError>)
        ensures
            match inline_due(self.code(), op_index as int, raw@) {
                Ok(d) => res is Ok && res->Ok_0@ == d,
                Err(f) => res is Err && fail_matches(res->Err_0, f),
            },
    {
        let parts = split_words(raw);
        proof {
            assert(texts(parts@) == words(raw@));
        }
        if parts.len() != 4 || !text_eq(parts[2].as_str(), "from") {
            return Err(self.runtime_error(
                op_index,
                "Inline due must match: '<N> <calendar_days|business_days> from <Anchor>'",
            ));
        }
        proof {
            assert(texts(parts@)[0] == parts@[0]@);
            assert(texts(parts@)[1] == parts@[1]@);
            assert(texts(parts@)[3] == parts@[3]@);
        }
        let amount = match parse_u32(parts[0].as_str()) {
            Some(a) => a,
            None => return Err(self.runtime_error(op_index, "Inline due amount must be integer")),
        };
        let unit = match Self::unit_from_name(parts[1].as_str()) {
            Some(u) => u,
            None => return Err(self.runtime_error(
                op_index,
                "Inline due unit must be calendar_days or business_days",
            )),
        };
        Ok(DueDef::InlineDuration { duration: Duration { amount, unit }, anchor: parts[3].clone() })
    }

    fn parse_due(&self, value: Value, op_index: usize) -> (res: Result<DueDef, KontraError>)
        ensures
            match due_of(self.code(), op_index as int, value@) {
                Ok(d) => res is Ok && res->Ok_0@ == d,
                Err(f) => res is Err && fail_matches(res->Err_0, f),
            },
    {
        match value {
            Value::Identifier(term_ref) => Ok(DueDef::TermRef(term_ref)),
            Value::Str(inline) => self.parse_inline_due(inline.as_str(), op_index),
            _ => Err(self.runtime_error(op_index, "SetDue expects identifier or inline due string")),
        }
    }

    fn op_set_due(&mut self, op_index: usize) -> (r: Result<(), KontraError>)
        requires
            old(self).inv(),
        ensures
            final(self).inv(),
            final(self).code() == old(self).code(),
            outcome_is(r, final(self)@, spec_op_set_due(old(self).code(), old(self)@, op_index as int)),
    {
        let raw_value = match self.pop_value(op_index) {
            Ok(v) => v,
            Err(e) => return Err(e),
        };
        let due = match self.parse_due(raw_value, op_index) {
            Ok(d) => d,
            Err(e) => return Err(e),
        };
        match self.current_phase.take() {
            Some(mut p) => {
                p.due = Some(due);
                self.current_phase = Some(p);
                return Ok(());
            },
            None => {},
        }
        match self.current_obligation.take() {
            Some(mut o) => {
                o.due = Some(due);
                self.current_obligation = Some(o);
                return Ok(());
            },
            None => {},
        }
        match self.current_remedy.take() {
            Some(mut rm) => {
                rm.due = Some(due);
                self.current_remedy = Some(rm);
                return Ok(());
            },
            None => {},
        }
        Err(self.runtime_error(op_index, "SetDue used outside declaration scope"))
    }

    fn op_set_condition(&mut self, op_index: usize) -> (r: Result<(), KontraError>)
        requires
            old(self).inv(),
        ensures
            final(self).inv(),
            final(self).code() == old(self).code(),
            outcome_is(r, final(self)@, spec_op_set_condition(old(self).code(), old(self)@, op_index as int)),
    {
        let condition = match self.condition_stack.pop() {
            Some(c) => c,
            None => return Err(self.runtime_error(op_index, "SetCondition expects built condition")),
        };
        proof {
            assert(views(self.condition_stack@) =~= old(self)@.conds.drop_last());
        }
        match self.current_phase.take() {
            Some(mut p) => {
                p.condition = Some(condition);
                self.current_phase = Some(p);
                return Ok(());
            },
            None => {},
        }
        match self.current_obligation.take() {
            Some(mut o) => {
                o.condition = Some(condition);
                self.current_obligation = Some(o);
                return Ok(());
            },
            None => {},
        }
        match self.current_remedy.take() {
            Some(mut rm) => {
                rm.condition = Some(condition);
                self.current_remedy = Some(rm);
                return Ok(());
            },
            None => {},
        }
        Err(self.runtime_error(op_index, "SetCondition used outside declaration scope"))
    }

    fn op_atom(&mut self, op_index: usize, which: OpCode) -> (r: Result<(), KontraError>)
        requires
            old(self).inv(),
            which == OpCode::ConditionAfter || which == OpCode::ConditionBefore || which
                == OpCode::ConditionSatisfied || which == OpCode::ConditionOccurred,
        ensures
            final(self).inv(),
            final(self).code() == old(self).code(),
            outcome_is(r, final(self)@, spec_op_atom(old(self).code(), old(self)@, op_index as int, which)),
    {
        let ctx = match which {
            OpCode::ConditionAfter => "ConditionAfter expects identifier argument",
            OpCode::ConditionBefore => "ConditionBefore expects identifier argument",
            OpCode::ConditionSatisfied => "ConditionSatisfied expects identifier argument",
            _ => "ConditionOccurred expects identifier argument",
        };
        let arg = match self.pop_identifier(op_index, ctx) {
            Ok(n) => n,
            Err(e) => return Err(e),
        };
        let cond = match which {
            OpCode::ConditionAfter => ConditionExpr::After(arg),
            OpCode::ConditionBefore => ConditionExpr::Before(arg),
            OpCode::ConditionSatisfied => ConditionExpr::Satisfied(arg),
            _ => ConditionExpr::Occurred(arg),
        };
        let ghost cv = cond@;
        let ghost before = views(self.condition_stack@);
        self.condition_stack.push(cond);
        proof {
            assert(views(self.condition_stack@) =~= before.push(cv));
        }
        Ok(())
    }

    fn op_combine(&mut self, op_index: usize, is_and: bool) -> (r: Result<(), KontraError>)
        requires
            old(self).inv(),
        ensures
            final(self).inv(),
            final(self).code() == old(self).code(),
            outcome_is(r, final(self)@, spec_op_combine(old(self).code(), old(self)@, op_index as int, is_and)),
    {
        let right = match self.condition_stack.pop() {
            Some(c) => c,
            None => return Err(self.runtime_error(
                op_index,
                if is_and { "ConditionAnd missing right operand" } else { "ConditionOr missing right operand" },
            )),
        };
        let left = match self.condition_stack.pop() {
            Some(c) => c,
            None => return Err(self.runtime_error(
                op_index,
                if is_and { "ConditionAnd missing left operand" } else { "ConditionOr missing left operand" },
            )),
        };
        let cond = if is_and {
            ConditionExpr::And(Box::new(left), Box::new(right))
        } else {
            ConditionExpr::Or(Box::new(left), Box::new(right))
        };
        let ghost cv = cond@;
        let ghost before = views(self.condition_stack@);
        self.condition_stack.push(cond);
        proof {
            assert(before =~= old(self)@.conds.drop_last().drop_last());
            assert(views(self.condition_stack@) =~= before.push(cv));
        }
        Ok(())
    }
}

} // verus!
