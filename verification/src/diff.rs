//! Semantic diff between two versions of a contract, its rendering, and the
//! risks a change introduces.

use vstd::prelude::*;
use crate::dates::{day_text, format_day};
use crate::namemap::{entry_keys, entry_lookup, first_index, lemma_first_index, pairs_view, opt_view};
use crate::semantics::scoped_name;
use crate::text::{
    owned, append_str, push_char, text_eq, decimal, decimal_string, texts, strictly_sorted, sorted_set, digit_char,
    sorted_union, lemma_sorted_union, lemma_sorted_union_spec, seq_lt,
};
use crate::types::{
    ContractDef, ContractView, ConditionExpr, ConditionView, DueDef, DueView, Duration, DurationUnit, EventDef, EventDefView,
    ObligationDef, ObligationView, Party, PartyView, PhaseDef, PhaseView, RemedyDef, RemedyView, Term,
    TermView, TermAnchor, TermAnchorView, views,
};

verus! {

/// The text Rust's `Debug` writes for a string: quoted, with escapes.
pub uninterp spec fn spec_debug_text(s: Seq<char>) -> Seq<char>;

/// Writes a string as `Debug` shows it.
///
/// Calls `format!("{:?}", s)`, std's `Debug` for `str`. The contract only
/// names the result.
#[verifier::external_body]
fn debug_text(s: &str) -> (res: String)
    ensures
        res@ == spec_debug_text(s@),
{
    format!("{:?}", s)
}

// ---------------------------------------------------------------------------
// Debug renderings of model values
// ---------------------------------------------------------------------------

pub open spec fn dbg_opt_text(o: Option<Seq<char>>) -> Seq<char> {
    match o {
        Some(s) => "Some("@ + spec_debug_text(s) + ")"@,
        None => "None"@,
    }
}

pub open spec fn dbg_unit(u: DurationUnit) -> Seq<char> {
    match u {
        DurationUnit::CalendarDays => "CalendarDays"@,
        DurationUnit::BusinessDays => "BusinessDays"@,
    }
}

pub open spec fn dbg_anchor(a: TermAnchorView) -> Seq<char> {
    match a {
        TermAnchorView::Event(e) => "Event("@ + spec_debug_text(e) + ")"@,
        TermAnchorView::BreachOf(t) => "BreachOf("@ + spec_debug_text(t) + ")"@,
    }
}

pub open spec fn dbg_cond(c: ConditionView) -> Seq<char>
    decreases c,
{
    match c {
        ConditionView::After(e) => "After("@ + spec_debug_text(e) + ")"@,
        ConditionView::Before(e) => "Before("@ + spec_debug_text(e) + ")"@,
        ConditionView::Satisfied(e) => "Satisfied("@ + spec_debug_text(e) + ")"@,
        ConditionView::Occurred(e) => "Occurred("@ + spec_debug_text(e) + ")"@,
        ConditionView::And(l, r) => "And("@ + dbg_cond(*l) + ", "@ + dbg_cond(*r) + ")"@,
        ConditionView::Or(l, r) => "Or("@ + dbg_cond(*l) + ", "@ + dbg_cond(*r) + ")"@,
    }
}

pub open spec fn dbg_opt_cond(o: Option<ConditionView>) -> Seq<char> {
    match o {
        Some(c) => "Some("@ + dbg_cond(c) + ")"@,
        None => "None"@,
    }
}

pub open spec fn dbg_due(d: DueView) -> Seq<char> {
    match d {
        DueView::TermRef(t) => "TermRef("@ + spec_debug_text(t) + ")"@,
        DueView::InlineDuration { duration, anchor } => "InlineDuration { duration: Duration { amount: "@
            + decimal(duration.amount as nat) + ", unit: "@ + dbg_unit(duration.unit) + " }, anchor: "@
            + spec_debug_text(anchor) + " }"@,
    }
}

pub open spec fn dbg_opt_due(o: Option<DueView>) -> Seq<char> {
    match o {
        Some(d) => "Some("@ + dbg_due(d) + ")"@,
        None => "None"@,
    }
}

pub open spec fn dbg_event(e: EventDefView) -> Seq<char> {
    match e {
        EventDefView::DateEvent(d) => "DateEvent("@ + day_text(d) + ")"@,
        EventDefView::TriggeredEvent(r) => "TriggeredEvent("@ + spec_debug_text(r) + ")"@,
    }
}

fn dbg_opt_text_of(o: &Option<String>) -> (res: String)
    ensures
        res@ == dbg_opt_text(opt_view(*o)),
{
    match o {
        Some(s) => {
            let mut out = owned("Some(");
            let d = debug_text(s.as_str());
            append_str(&mut out, d.as_str());
            append_str(&mut out, ")");
            out
        },
        None => owned("None"),
    }
}

fn dbg_unit_of(u: DurationUnit) -> (res: &'static str)
    ensures
        res@ == dbg_unit(u),
{
    match u {
        DurationUnit::CalendarDays => "CalendarDays",
        DurationUnit::BusinessDays => "BusinessDays",
    }
}

/// `head` followed by the `Debug` text of `s` and `)`.
fn wrapped(head: &str, s: &str) -> (res: String)
    ensures
        res@ == head@ + spec_debug_text(s@) + ")"@,
{
    let mut out = owned(head);
    let d = debug_text(s);
    append_str(&mut out, d.as_str());
    append_str(&mut out, ")");
    out
}

fn dbg_anchor_of(a: &TermAnchor) -> (res: String)
    ensures
        res@ == dbg_anchor(a@),
{
    match a {
        TermAnchor::Event(e) => wrapped("Event(", e.as_str()),
        TermAnchor::BreachOf(t) => wrapped("BreachOf(", t.as_str()),
    }
}

fn dbg_cond_of(c: &ConditionExpr) -> (res: String)
    ensures
        res@ == dbg_cond(c@),
    decreases c,
{
    match c {
        ConditionExpr::After(e) => wrapped("After(", e.as_str()),
        ConditionExpr::Before(e) => wrapped("Before(", e.as_str()),
        ConditionExpr::Satisfied(e) => wrapped("Satisfied(", e.as_str()),
        ConditionExpr::Occurred(e) => wrapped("Occurred(", e.as_str()),
        ConditionExpr::And(l, r) => {
            let mut out = owned("And(");
            let a = dbg_cond_of(l);
            let b = dbg_cond_of(r);
            append_str(&mut out, a.as_str());
            append_str(&mut out, ", ");
            append_str(&mut out, b.as_str());
            append_str(&mut out, ")");
            out
        },
        ConditionExpr::Or(l, r) => {
            let mut out = owned("Or(");
            let a = dbg_cond_of(l);
            let b = dbg_cond_of(r);
            append_str(&mut out, a.as_str());
            append_str(&mut out, ", ");
            append_str(&mut out, b.as_str());
            append_str(&mut out, ")");
            out
        },
    }
}

fn dbg_opt_cond_of(o: &Option<ConditionExpr>) -> (res: String)
    ensures
        res@ == dbg_opt_cond(opt_view(*o)),
{
    match o {
        Some(c) => {
            let mut out = owned("Some(");
            let d = dbg_cond_of(c);
            append_str(&mut out, d.as_str());
            append_str(&mut out, ")");
            out
        },
        None => owned("None"),
    }
}

fn dbg_due_of(d: &DueDef) -> (res: String)
    ensures
        res@ == dbg_due(d@),
{
    match d {
        DueDef::TermRef(t) => wrapped("TermRef(", t.as_str()),
        DueDef::InlineDuration { duration, anchor } => {
            let mut out = owned("InlineDuration { duration: Duration { amount: ");
            let n = decimal_string(duration.amount as u64);
            append_str(&mut out, n.as_str());
            append_str(&mut out, ", unit: ");
            append_str(&mut out, dbg_unit_of(duration.unit));
            append_str(&mut out, " }, anchor: ");
            let a = debug_text(anchor.as_str());
            append_str(&mut out, a.as_str());
            append_str(&mut out, " }");
            out
        },
    }
}

fn dbg_opt_due_of(o: &Option<DueDef>) -> (res: String)
    ensures
        res@ == dbg_opt_due(opt_view(*o)),
{
    match o {
        Some(d) => {
            let mut out = owned("Some(");
            let s = dbg_due_of(d);
            append_str(&mut out, s.as_str());
            append_str(&mut out, ")");
            out
        },
        None => owned("None"),
    }
}

fn dbg_event_of(e: &EventDef) -> (res: String)
    ensures
        res@ == dbg_event(e@),
{
    match e {
        EventDef::DateEvent(d) => {
            let mut out = owned("DateEvent(");
            let t = format_day(*d);
            append_str(&mut out, t.as_str());
            append_str(&mut out, ")");
            out
        },
        EventDef::TriggeredEvent(r) => wrapped("TriggeredEvent(", r.as_str()),
    }
}

// ---------------------------------------------------------------------------
// Field-level changes
// ---------------------------------------------------------------------------

#[derive(Debug, Clone, PartialEq, Eq)]
pub struct FieldChange {
    pub field: String,
    pub old: String,
    pub new: String,
}

pub struct FieldChangeView {
    pub field: Seq<char>,
    pub old: Seq<char>,
    pub new: Seq<char>,
}

impl View for FieldChange {
    type V = FieldChangeView;

    open spec fn view(&self) -> FieldChangeView {
        FieldChangeView { field: self.field@, old: self.old@, new: self.new@ }
    }
}

/// A change of `field` from `old` to `new`, recorded when they differ.
pub open spec fn change_if(differ: bool, field: Seq<char>, old: Seq<char>, new: Seq<char>) -> Seq<FieldChangeView> {
    if differ {
        seq![FieldChangeView { field, old, new }]
    } else {
        Seq::empty()
    }
}

/// A change of a field shown as text, recorded when the texts differ.
pub open spec fn change(field: Seq<char>, old: Seq<char>, new: Seq<char>) -> Seq<FieldChangeView> {
    change_if(old != new, field, old, new)
}

fn push_change_if(changes: &mut Vec<FieldChange>, differ: bool, field: &str, before_text: String, after_text: String)
    ensures
        views(final(changes)@) == views(old(changes)@) + change_if(differ, field@, before_text@, after_text@),
{
    let ghost before = views(changes@);
    if differ {
        let c = FieldChange { field: owned(field), old: before_text, new: after_text };
        let ghost cv = c@;
        changes.push(c);
        assert(views(changes@) =~= before + seq![cv]);
    } else {
        assert(views(changes@) =~= before + Seq::<FieldChangeView>::empty());
    }
}

/// Records the change of `field` when its two texts differ.
pub fn push_if_changed(changes: &mut Vec<FieldChange>, field: &str, before_text: String, after_text: String)
    ensures
        views(final(changes)@) == views(old(changes)@) + change(field@, before_text@, after_text@),
{
    let differ = !text_eq(before_text.as_str(), after_text.as_str());
    push_change_if(changes, differ, field, before_text, after_text);
}

/// The change of one field shown as text: one entry when the texts differ,
/// none when they are equal.
pub fn diff_single_field(field: &str, before_text: &str, after_text: &str) -> (res: Vec<FieldChange>)
    ensures
        views(res@) == change(field@, before_text@, after_text@),
{
    let mut changes: Vec<FieldChange> = Vec::new();
    push_if_changed(&mut changes, field, owned(before_text), owned(after_text));
    proof {
        assert(views(changes@) =~= change(field@, before_text@, after_text@));
    }
    changes
}

/// What can be compared field by field.
pub trait Diffable: View + Sized {
    /// The changes from `a` to `b`, field by field.
    spec fn spec_changes(a: Self::V, b: Self::V) -> Seq<FieldChangeView>;

    /// Whether the two are equal.
    fn same(&self, other: &Self) -> (b: bool)
        ensures
            b == (self@ == other@);

    /// The changes from `self` to `other`.
    fn changes(&self, other: &Self) -> (res: Vec<FieldChange>)
        ensures
            views(res@) == Self::spec_changes(self@, other@);

    /// A copy.
    fn copy(&self) -> (res: Self)
        ensures
            res@ == self@;
}

pub open spec fn party_changes(a: PartyView, b: PartyView) -> Seq<FieldChangeView> {
    change("role"@, a.role, b.role) + change("name"@, a.name, b.name)
}

pub open spec fn event_changes(a: EventDefView, b: EventDefView) -> Seq<FieldChangeView> {
    match (a, b) {
        (EventDefView::DateEvent(x), EventDefView::DateEvent(y)) => change_if(x != y, "date"@, day_text(x), day_text(y)),
        (EventDefView::TriggeredEvent(x), EventDefView::TriggeredEvent(y)) => change("triggered_by"@, x, y),
        _ => seq![
            FieldChangeView { field: "kind"@, old: dbg_event(a), new: dbg_event(b) },
            FieldChangeView { field: "value"@, old: dbg_event(a), new: dbg_event(b) },
        ],
    }
}

pub open spec fn term_changes(a: TermView, b: TermView) -> Seq<FieldChangeView> {
    change("name"@, a.name, b.name) + change_if(
        a.duration.amount != b.duration.amount,
        "duration.amount"@,
        decimal(a.duration.amount as nat),
        decimal(b.duration.amount as nat),
    ) + change("duration.unit"@, dbg_unit(a.duration.unit), dbg_unit(b.duration.unit)) + change(
        "anchor"@,
        dbg_anchor(a.anchor),
        dbg_anchor(b.anchor),
    ) + change("calendar_ref"@, dbg_opt_text(a.calendar_ref), dbg_opt_text(b.calendar_ref))
}

pub open spec fn obligation_changes(a: ObligationView, b: ObligationView) -> Seq<FieldChangeView> {
    change("name"@, a.name, b.name) + change("party_role"@, dbg_opt_text(a.party_role), dbg_opt_text(b.party_role))
        + change("action"@, dbg_opt_text(a.action), dbg_opt_text(b.action)) + change(
        "due"@,
        dbg_opt_due(a.due),
        dbg_opt_due(b.due),
    ) + change("condition"@, dbg_opt_cond(a.condition), dbg_opt_cond(b.condition))
}

/// One of the changes is a change of `field`.
pub open spec fn has_field(cs: Seq<FieldChangeView>, field: Seq<char>) -> bool {
    exists|i: int| 0 <= i < cs.len() && (#[trigger] cs[i]).field == field
}

proof fn lemma_decimal_digits(n: nat)
    ensures
        decimal(n).len() >= 1,
        forall|i: int| 0 <= i < decimal(n).len() ==> '0' <= #[trigger] decimal(n)[i] <= '9',
        n >= 10 ==> decimal(n).len() >= 2,
    decreases n,
{
    if n >= 10 {
        lemma_decimal_digits(n / 10);
        let d = decimal(n / 10);
        assert forall|i: int| 0 <= i < decimal(n).len() implies '0' <= #[trigger] decimal(n)[i] <= '9' by {
            if i < d.len() {
                assert(decimal(n)[i] == d[i]);
            }
        }
    }
}

/// Different numbers are written differently.
proof fn lemma_decimal_injective(a: nat, b: nat)
    requires
        decimal(a) == decimal(b),
    ensures
        a == b,
    decreases a,
{
    lemma_decimal_digits(a);
    lemma_decimal_digits(b);
    if a >= 10 && b >= 10 {
        let da = decimal(a / 10);
        let db = decimal(b / 10);
        assert(decimal(a).drop_last() =~= da);
        assert(decimal(b).drop_last() =~= db);
        lemma_decimal_injective(a / 10, b / 10);
        assert(decimal(a).last() == digit_char(a % 10));
        assert(decimal(b).last() == digit_char(b % 10));
    } else if a < 10 && b < 10 {
        assert(decimal(a)[0] == digit_char(a));
        assert(decimal(b)[0] == digit_char(b));
    }
}

/// Two inline deadlines that count different durations are written
/// differently.
proof fn lemma_inline_texts_differ(d1: Duration, a1: Seq<char>, d2: Duration, a2: Seq<char>)
    requires
        d1 != d2,
    ensures
        dbg_opt_due(Some(DueView::InlineDuration { duration: d1, anchor: a1 }))
            != dbg_opt_due(Some(DueView::InlineDuration { duration: d2, anchor: a2 })),
{
    reveal_strlit("Some(");
    reveal_strlit("InlineDuration { duration: Duration { amount: ");
    reveal_strlit(", unit: ");
    reveal_strlit("CalendarDays");
    reveal_strlit("BusinessDays");
    let pre = "Some("@ + "InlineDuration { duration: Duration { amount: "@;
    let x1 = decimal(d1.amount as nat) + ", unit: "@ + dbg_unit(d1.unit) + (" }, anchor: "@ + spec_debug_text(a1) + " }"@ + ")"@);
    let x2 = decimal(d2.amount as nat) + ", unit: "@ + dbg_unit(d2.unit) + (" }, anchor: "@ + spec_debug_text(a2) + " }"@ + ")"@);
    let t1 = dbg_opt_due(Some(DueView::InlineDuration { duration: d1, anchor: a1 }));
    let t2 = dbg_opt_due(Some(DueView::InlineDuration { duration: d2, anchor: a2 }));
    assert(t1 =~= pre + x1);
    assert(t2 =~= pre + x2);
    if t1 == t2 {
        assert(x1 =~= t1.skip(pre.len() as int));
        assert(x2 =~= t2.skip(pre.len() as int));
        let e1 = decimal(d1.amount as nat);
        let e2 = decimal(d2.amount as nat);
        lemma_decimal_digits(d1.amount as nat);
        lemma_decimal_digits(d2.amount as nat);
        if e1.len() == e2.len() {
            assert(x1.take(e1.len() as int) =~= e1);
            assert(x2.take(e2.len() as int) =~= e2);
            lemma_decimal_injective(d1.amount as nat, d2.amount as nat);
            let k: int = e1.len() as int + 8;
            assert(x1.subrange(k, k + 12) =~= dbg_unit(d1.unit));
            assert(x2.subrange(k, k + 12) =~= dbg_unit(d2.unit));
            assert(dbg_unit(d1.unit)[0] != dbg_unit(d2.unit)[0] || d1.unit == d2.unit);
        } else if e1.len() < e2.len() {
            assert(x1[e1.len() as int] == ',');
            assert(x2[e1.len() as int] == e2[e1.len() as int]);
        } else {
            assert(x2[e2.len() as int] == ',');
            assert(x1[e2.len() as int] == e1[e2.len() as int]);
        }
    }
}

/// The field changes of two obligations name only fields in which they
/// differ, so equal obligations have none; they name each field whose
/// value is present on one side only, a changed name, and a deadline that
/// counts a different duration (amount or unit).
pub proof fn lemma_obligation_changes_fields(a: ObligationView, b: ObligationView)
    ensures
        a == b ==> obligation_changes(a, b).len() == 0,
        a.name == b.name <==> !has_field(obligation_changes(a, b), "name"@),
        a.party_role == b.party_role ==> !has_field(obligation_changes(a, b), "party_role"@),
        a.action == b.action ==> !has_field(obligation_changes(a, b), "action"@),
        a.due == b.due ==> !has_field(obligation_changes(a, b), "due"@),
        a.condition == b.condition ==> !has_field(obligation_changes(a, b), "condition"@),
        (a.party_role is Some) != (b.party_role is Some) ==> has_field(obligation_changes(a, b), "party_role"@),
        (a.action is Some) != (b.action is Some) ==> has_field(obligation_changes(a, b), "action"@),
        (a.due is Some) != (b.due is Some) ==> has_field(obligation_changes(a, b), "due"@),
        (a.condition is Some) != (b.condition is Some) ==> has_field(obligation_changes(a, b), "condition"@),
        (a.due matches Some(DueView::InlineDuration { duration: d1, anchor: x1 })
            && b.due matches Some(DueView::InlineDuration { duration: d2, anchor: x2 }) && d1 != d2)
            ==> has_field(obligation_changes(a, b), "due"@),
{
    reveal_strlit("name");
    reveal_strlit("party_role");
    reveal_strlit("action");
    reveal_strlit("due");
    reveal_strlit("condition");
    reveal_strlit("Some(");
    reveal_strlit("None");
    let c1 = change("name"@, a.name, b.name);
    let c2 = change("party_role"@, dbg_opt_text(a.party_role), dbg_opt_text(b.party_role));
    let c3 = change("action"@, dbg_opt_text(a.action), dbg_opt_text(b.action));
    let c4 = change("due"@, dbg_opt_due(a.due), dbg_opt_due(b.due));
    let c5 = change("condition"@, dbg_opt_cond(a.condition), dbg_opt_cond(b.condition));
    let cs = obligation_changes(a, b);
    assert(cs == c1 + c2 + c3 + c4 + c5);
    let fields = seq!["name"@, "party_role"@, "action"@, "due"@, "condition"@];
    assert(forall|p: int, q: int| 0 <= p < q < 5 ==> fields[p] != fields[q]) by {
        assert(fields[0].len() != fields[1].len());
        assert(fields[0].len() != fields[2].len());
        assert(fields[0][0] != fields[3][0]);
        assert(fields[0].len() != fields[4].len());
        assert(fields[1].len() != fields[2].len());
        assert(fields[1].len() != fields[3].len());
        assert(fields[1].len() != fields[4].len());
        assert(fields[2].len() != fields[3].len());
        assert(fields[2].len() != fields[4].len());
        assert(fields[3].len() != fields[4].len());
    }
    // Each part holds at most one change, of its own field.
    assert forall|f: Seq<char>| #[trigger] has_field(cs, f) <==> (
        has_field(c1, f) || has_field(c2, f) || has_field(c3, f) || has_field(c4, f) || has_field(c5, f)) by {
        if has_field(cs, f) {
            let i = choose|i: int| 0 <= i < cs.len() && (#[trigger] cs[i]).field == f;
            let l1 = c1.len() as int;
            let l2 = l1 + c2.len();
            let l3 = l2 + c3.len();
            let l4 = l3 + c4.len();
            if i < l1 {
                assert(cs[i] == c1[i]);
            } else if i < l2 {
                assert(cs[i] == c2[i - l1]);
            } else if i < l3 {
                assert(cs[i] == c3[i - l2]);
            } else if i < l4 {
                assert(cs[i] == c4[i - l3]);
            } else {
                assert(cs[i] == c5[i - l4]);
            }
        }
        let l1 = c1.len() as int;
        let l2 = l1 + c2.len();
        let l3 = l2 + c3.len();
        let l4 = l3 + c4.len();
        if has_field(c1, f) {
            assert(cs[0] == c1[0]);
        }
        if has_field(c2, f) {
            assert(cs[l1] == c2[0]);
        }
        if has_field(c3, f) {
            assert(cs[l2] == c3[0]);
        }
        if has_field(c4, f) {
            assert(cs[l3] == c4[0]);
        }
        if has_field(c5, f) {
            assert(cs[l4] == c5[0]);
        }
    }
    assert(has_field(c1, "name"@) <==> a.name != b.name) by {
        if a.name != b.name {
            assert(c1[0].field == "name"@);
        }
    }
    if has_field(c2, "party_role"@) || a.party_role != b.party_role {
        if c2.len() > 0 {
            assert(c2[0].field == "party_role"@);
        }
    }
    if (a.party_role is Some) != (b.party_role is Some) {
        assert(dbg_opt_text(a.party_role)[0] != dbg_opt_text(b.party_role)[0]);
        assert(c2[0].field == "party_role"@);
    }
    if (a.action is Some) != (b.action is Some) {
        assert(dbg_opt_text(a.action)[0] != dbg_opt_text(b.action)[0]);
        assert(c3[0].field == "action"@);
    }
    if (a.due is Some) != (b.due is Some) {
        assert(dbg_opt_due(a.due)[0] != dbg_opt_due(b.due)[0]);
        assert(c4[0].field == "due"@);
    }
    if (a.condition is Some) != (b.condition is Some) {
        assert(dbg_opt_cond(a.condition)[0] != dbg_opt_cond(b.condition)[0]);
        assert(c5[0].field == "condition"@);
    }
    match (a.due, b.due) {
        (Some(DueView::InlineDuration { duration: d1, anchor: x1 }), Some(DueView::InlineDuration { duration: d2, anchor: x2 })) => {
            if d1 != d2 {
                lemma_inline_texts_differ(d1, x1, d2, x2);
                assert(c4[0].field == "due"@);
            }
        },
        _ => {},
    }
    if c1.len() > 0 { assert(c1[0].field == fields[0]); }
    if c2.len() > 0 { assert(c2[0].field == fields[1]); }
    if c3.len() > 0 { assert(c3[0].field == fields[2]); }
    if c4.len() > 0 { assert(c4[0].field == fields[3]); }
    if c5.len() > 0 { assert(c5[0].field == fields[4]); }
}

pub open spec fn remedy_changes(a: RemedyView, b: RemedyView) -> Seq<FieldChangeView> {
    change("name"@, a.name, b.name) + change("breach_target"@, a.breach_target, b.breach_target) + change(
        "party_role"@,
        dbg_opt_text(a.party_role),
        dbg_opt_text(b.party_role),
    ) + change("action"@, dbg_opt_text(a.action), dbg_opt_text(b.action)) + change(
        "due"@,
        dbg_opt_due(a.due),
        dbg_opt_due(b.due),
    ) + change("condition"@, dbg_opt_cond(a.condition), dbg_opt_cond(b.condition)) + change_if(
        a.phases.len() != b.phases.len(),
        "phase_count"@,
        decimal(a.phases.len()),
        decimal(b.phases.len()),
    )
}

pub open spec fn phase_changes(a: PhaseView, b: PhaseView) -> Seq<FieldChangeView> {
    change("name"@, a.name, b.name) + change(
        "breach_target"@,
        dbg_opt_text(a.breach_target),
        dbg_opt_text(b.breach_target),
    ) + change("party_role"@, dbg_opt_text(a.party_role), dbg_opt_text(b.party_role)) + change(
        "action"@,
        dbg_opt_text(a.action),
        dbg_opt_text(b.action),
    ) + change("due"@, dbg_opt_due(a.due), dbg_opt_due(b.due)) + change(
        "condition"@,
        dbg_opt_cond(a.condition),
        dbg_opt_cond(b.condition),
    )
}

fn opt_text_same(a: &Option<String>, b: &Option<String>) -> (r: bool)
    ensures
        r == (opt_view(*a) == opt_view(*b)),
{
    match (a, b) {
        (Some(x), Some(y)) => text_eq(x.as_str(), y.as_str()),
        (None, None) => true,
        _ => false,
    }
}

fn cond_same(a: &ConditionExpr, b: &ConditionExpr) -> (r: bool)
    ensures
        r == (a@ == b@),
    decreases a,
{
    match (a, b) {
        (ConditionExpr::After(x), ConditionExpr::After(y)) => text_eq(x.as_str(), y.as_str()),
        (ConditionExpr::Before(x), ConditionExpr::Before(y)) => text_eq(x.as_str(), y.as_str()),
        (ConditionExpr::Satisfied(x), ConditionExpr::Satisfied(y)) => text_eq(x.as_str(), y.as_str()),
        (ConditionExpr::Occurred(x), ConditionExpr::Occurred(y)) => text_eq(x.as_str(), y.as_str()),
        (ConditionExpr::And(l1, r1), ConditionExpr::And(l2, r2)) => {
            let p = cond_same(l1, l2);
            let q = cond_same(r1, r2);
            p && q
        },
        (ConditionExpr::Or(l1, r1), ConditionExpr::Or(l2, r2)) => {
            let p = cond_same(l1, l2);
            let q = cond_same(r1, r2);
            p && q
        },
        _ => false,
    }
}

fn opt_cond_same(a: &Option<ConditionExpr>, b: &Option<ConditionExpr>) -> (r: bool)
    ensures
        r == (opt_view(*a) == opt_view(*b)),
{
    match (a, b) {
        (Some(x), Some(y)) => cond_same(x, y),
        (None, None) => true,
        _ => false,
    }
}

fn due_same(a: &DueDef, b: &DueDef) -> (r: bool)
    ensures
        r == (a@ == b@),
{
    match (a, b) {
        (DueDef::TermRef(x), DueDef::TermRef(y)) => text_eq(x.as_str(), y.as_str()),
        (
            DueDef::InlineDuration { duration: d1, anchor: a1 },
            DueDef::InlineDuration { duration: d2, anchor: a2 },
        ) => d1.amount == d2.amount && d1.unit == d2.unit && text_eq(a1.as_str(), a2.as_str()),
        _ => false,
    }
}

fn opt_due_same(a: &Option<DueDef>, b: &Option<DueDef>) -> (r: bool)
    ensures
        r == (opt_view(*a) == opt_view(*b)),
{
    match (a, b) {
        (Some(x), Some(y)) => due_same(x, y),
        (None, None) => true,
        _ => false,
    }
}

fn phase_same(a: &PhaseDef, b: &PhaseDef) -> (r: bool)
    ensures
        r == (a@ == b@),
{
    text_eq(a.name.as_str(), b.name.as_str()) && opt_text_same(&a.breach_target, &b.breach_target)
        && opt_text_same(&a.party_role, &b.party_role) && opt_text_same(&a.action, &b.action)
        && opt_due_same(&a.due, &b.due) && opt_cond_same(&a.condition, &b.condition)
}

impl Diffable for Party {
    open spec fn spec_changes(a: PartyView, b: PartyView) -> Seq<FieldChangeView> {
        party_changes(a, b)
    }

    fn same(&self, other: &Self) -> (b: bool) {
        text_eq(self.role.as_str(), other.role.as_str()) && text_eq(self.name.as_str(), other.name.as_str())
    }

    fn changes(&self, other: &Self) -> (res: Vec<FieldChange>) {
        let mut changes: Vec<FieldChange> = Vec::new();
        push_if_changed(&mut changes, "role", self.role.clone(), other.role.clone());
        push_if_changed(&mut changes, "name", self.name.clone(), other.name.clone());
        proof {
            assert(views(changes@) =~= party_changes(self@, other@));
        }
        changes
    }

    fn copy(&self) -> (res: Self) {
        self.clone()
    }
}

impl Diffable for EventDef {
    open spec fn spec_changes(a: EventDefView, b: EventDefView) -> Seq<FieldChangeView> {
        event_changes(a, b)
    }

    fn same(&self, other: &Self) -> (b: bool) {
        match (self, other) {
            (EventDef::DateEvent(x), EventDef::DateEvent(y)) => *x == *y,
            (EventDef::TriggeredEvent(x), EventDef::TriggeredEvent(y)) => text_eq(x.as_str(), y.as_str()),
            _ => false,
        }
    }

    fn changes(&self, other: &Self) -> (res: Vec<FieldChange>) {
        let mut changes: Vec<FieldChange> = Vec::new();
        match (self, other) {
            (EventDef::DateEvent(x), EventDef::DateEvent(y)) => {
                push_change_if(&mut changes, *x != *y, "date", format_day(*x), format_day(*y));
            },
            (EventDef::TriggeredEvent(x), EventDef::TriggeredEvent(y)) => {
                push_if_changed(&mut changes, "triggered_by", x.clone(), y.clone());
            },
            _ => {
                push_change_if(&mut changes, true, "kind", dbg_event_of(self), dbg_event_of(other));
                push_change_if(&mut changes, true, "value", dbg_event_of(self), dbg_event_of(other));
            },
        }
        proof {
            assert(views(changes@) =~= event_changes(self@, other@));
        }
        changes
    }

    fn copy(&self) -> (res: Self) {
        self.clone()
    }
}

impl Diffable for Term {
    open spec fn spec_changes(a: TermView, b: TermView) -> Seq<FieldChangeView> {
        term_changes(a, b)
    }

    fn same(&self, other: &Self) -> (b: bool) {
        let anchors = match (&self.anchor, &other.anchor) {
            (TermAnchor::Event(x), TermAnchor::Event(y)) => text_eq(x.as_str(), y.as_str()),
            (TermAnchor::BreachOf(x), TermAnchor::BreachOf(y)) => text_eq(x.as_str(), y.as_str()),
            _ => false,
        };
        text_eq(self.name.as_str(), other.name.as_str()) && self.duration.amount == other.duration.amount
            && self.duration.unit == other.duration.unit && anchors && opt_text_same(
            &self.calendar_ref,
            &other.calendar_ref,
        )
    }

    fn changes(&self, other: &Self) -> (res: Vec<FieldChange>) {
        let mut changes: Vec<FieldChange> = Vec::new();
        push_if_changed(&mut changes, "name", self.name.clone(), other.name.clone());
        push_change_if(
            &mut changes,
            self.duration.amount != other.duration.amount,
            "duration.amount",
            decimal_string(self.duration.amount as u64),
            decimal_string(other.duration.amount as u64),
        );
        push_if_changed(
            &mut changes,
            "duration.unit",
            owned(dbg_unit_of(self.duration.unit)),
            owned(dbg_unit_of(other.duration.unit)),
        );
        push_if_changed(&mut changes, "anchor", dbg_anchor_of(&self.anchor), dbg_anchor_of(&other.anchor));
        push_if_changed(
            &mut changes,
            "calendar_ref",
            dbg_opt_text_of(&self.calendar_ref),
            dbg_opt_text_of(&other.calendar_ref),
        );
        proof {
            assert(views(changes@) =~= term_changes(self@, other@));
        }
        changes
    }

    fn copy(&self) -> (res: Self) {
        self.clone()
    }
}

impl Diffable for ObligationDef {
    open spec fn spec_changes(a: ObligationView, b: ObligationView) -> Seq<FieldChangeView> {
        obligation_changes(a, b)
    }

    fn same(&self, other: &Self) -> (b: bool) {
        text_eq(self.name.as_str(), other.name.as_str()) && opt_text_same(&self.party_role, &other.party_role)
            && opt_text_same(&self.action, &other.action) && opt_due_same(&self.due, &other.due)
            && opt_cond_same(&self.condition, &other.condition)
    }

    fn changes(&self, other: &Self) -> (res: Vec<FieldChange>) {
        let mut changes: Vec<FieldChange> = Vec::new();
        push_if_changed(&mut changes, "name", self.name.clone(), other.name.clone());
        push_if_changed(
            &mut changes,
            "party_role",
            dbg_opt_text_of(&self.party_role),
            dbg_opt_text_of(&other.party_role),
        );
        push_if_changed(&mut changes, "action", dbg_opt_text_of(&self.action), dbg_opt_text_of(&other.action));
        push_if_changed(&mut changes, "due", dbg_opt_due_of(&self.due), dbg_opt_due_of(&other.due));
        push_if_changed(
            &mut changes,
            "condition",
            dbg_opt_cond_of(&self.condition),
            dbg_opt_cond_of(&other.condition),
        );
        proof {
            assert(views(changes@) =~= obligation_changes(self@, other@));
        }
        changes
    }

    fn copy(&self) -> (res: Self) {
        self.clone()
    }
}

impl Diffable for RemedyDef {
    open spec fn spec_changes(a: RemedyView, b: RemedyView) -> Seq<FieldChangeView> {
        remedy_changes(a, b)
    }

    fn same(&self, other: &Self) -> (b: bool) {
        let base = text_eq(self.name.as_str(), other.name.as_str()) && text_eq(
            self.breach_target.as_str(),
            other.breach_target.as_str(),
        ) && opt_text_same(&self.party_role, &other.party_role) && opt_text_same(&self.action, &other.action)
            && opt_due_same(&self.due, &other.due) && opt_cond_same(&self.condition, &other.condition);
        if !base || self.phases.len() != other.phases.len() {
            proof {
                if self.phases@.len() != other.phases@.len() {
                    assert(self@.phases.len() != other@.phases.len());
                }
            }
            return false;
        }
        let mut i: usize = 0;
        while i < self.phases.len()
            invariant
                self.phases@.len() == other.phases@.len(),
                i <= self.phases@.len(),
                forall|j: int| 0 <= j < i ==> self@.phases[j] == other@.phases[j],
            decreases self.phases@.len() - i,
        {
            if !phase_same(&self.phases[i], &other.phases[i]) {
                proof {
                    assert(self@.phases[i as int] != other@.phases[i as int]);
                }
                return false;
            }
            i = i + 1;
        }
        proof {
            assert(self@.phases =~= other@.phases);
        }
        true
    }

    fn changes(&self, other: &Self) -> (res: Vec<FieldChange>) {
        let mut changes: Vec<FieldChange> = Vec::new();
        push_if_changed(&mut changes, "name", self.name.clone(), other.name.clone());
        push_if_changed(&mut changes, "breach_target", self.breach_target.clone(), other.breach_target.clone());
        push_if_changed(
            &mut changes,
            "party_role",
            dbg_opt_text_of(&self.party_role),
            dbg_opt_text_of(&other.party_role),
        );
        push_if_changed(&mut changes, "action", dbg_opt_text_of(&self.action), dbg_opt_text_of(&other.action));
        push_if_changed(&mut changes, "due", dbg_opt_due_of(&self.due), dbg_opt_due_of(&other.due));
        push_if_changed(
            &mut changes,
            "condition",
            dbg_opt_cond_of(&self.condition),
            dbg_opt_cond_of(&other.condition),
        );
        push_change_if(
            &mut changes,
            self.phases.len() != other.phases.len(),
            "phase_count",
            decimal_string(self.phases.len() as u64),
            decimal_string(other.phases.len() as u64),
        );
        proof {
            assert(views(changes@) =~= remedy_changes(self@, other@));
        }
        changes
    }

    fn copy(&self) -> (res: Self) {
        self.clone()
    }
}

impl Diffable for PhaseDef {
    open spec fn spec_changes(a: PhaseView, b: PhaseView) -> Seq<FieldChangeView> {
        phase_changes(a, b)
    }

    fn same(&self, other: &Self) -> (b: bool) {
        phase_same(self, other)
    }

    fn changes(&self, other: &Self) -> (res: Vec<FieldChange>) {
        let mut changes: Vec<FieldChange> = Vec::new();
        push_if_changed(&mut changes, "name", self.name.clone(), other.name.clone());
        push_if_changed(
            &mut changes,
            "breach_target",
            dbg_opt_text_of(&self.breach_target),
            dbg_opt_text_of(&other.breach_target),
        );
        push_if_changed(
            &mut changes,
            "party_role",
            dbg_opt_text_of(&self.party_role),
            dbg_opt_text_of(&other.party_role),
        );
        push_if_changed(&mut changes, "action", dbg_opt_text_of(&self.action), dbg_opt_text_of(&other.action));
        push_if_changed(&mut changes, "due", dbg_opt_due_of(&self.due), dbg_opt_due_of(&other.due));
        push_if_changed(
            &mut changes,
            "condition",
            dbg_opt_cond_of(&self.condition),
            dbg_opt_cond_of(&other.condition),
        );
        proof {
            assert(views(changes@) =~= phase_changes(self@, other@));
        }
        changes
    }

    fn copy(&self) -> (res: Self) {
        self.clone()
    }
}

// ---------------------------------------------------------------------------
// Item-level diffs
// ---------------------------------------------------------------------------

#[derive(Debug, Clone, Copy, PartialEq, Eq, Structural)]
pub enum ItemDiffKind {
    Added,
    Removed,
    Changed,
}

#[derive(Debug, Clone, PartialEq, Eq)]
pub struct ItemDiff {
    pub key: String,
    pub kind: ItemDiffKind,
    pub changes: Vec<FieldChange>,
}

pub struct ItemDiffView {
    pub key: Seq<char>,
    pub kind: ItemDiffKind,
    pub changes: Seq<FieldChangeView>,
}

impl View for ItemDiff {
    type V = ItemDiffView;

    open spec fn view(&self) -> ItemDiffView {
        ItemDiffView { key: self.key@, kind: self.kind, changes: views(self.changes@) }
    }
}

#[derive(Debug, Clone, PartialEq, Eq)]
pub struct ContractDiff {
    pub parties: Vec<ItemDiff>,
    pub events: Vec<ItemDiff>,
    pub terms: Vec<ItemDiff>,
    pub obligations: Vec<ItemDiff>,
    pub remedies: Vec<ItemDiff>,
    pub phases: Vec<ItemDiff>,
}

pub struct ContractDiffView {
    pub parties: Seq<ItemDiffView>,
    pub events: Seq<ItemDiffView>,
    pub terms: Seq<ItemDiffView>,
    pub obligations: Seq<ItemDiffView>,
    pub remedies: Seq<ItemDiffView>,
    pub phases: Seq<ItemDiffView>,
}

impl View for ContractDiff {
    type V = ContractDiffView;

    open spec fn view(&self) -> ContractDiffView {
        ContractDiffView {
            parties: views(self.parties@),
            events: views(self.events@),
            terms: views(self.terms@),
            obligations: views(self.obligations@),
            remedies: views(self.remedies@),
            phases: views(self.phases@),
        }
    }
}

/// How key `k` differs between the two versions: added, removed, changed
/// (with its field changes), or not at all.
pub open spec fn item_diff<T: Diffable>(
    old: Seq<(Seq<char>, T::V)>,
    new: Seq<(Seq<char>, T::V)>,
    k: Seq<char>,
) -> Option<ItemDiffView> {
    match (entry_lookup(old, k), entry_lookup(new, k)) {
        (None, Some(_)) => Some(ItemDiffView { key: k, kind: ItemDiffKind::Added, changes: Seq::empty() }),
        (Some(_), None) => Some(ItemDiffView { key: k, kind: ItemDiffKind::Removed, changes: Seq::empty() }),
        (Some(a), Some(b)) => if a != b {
            Some(ItemDiffView { key: k, kind: ItemDiffKind::Changed, changes: T::spec_changes(a, b) })
        } else {
            None
        },
        (None, None) => None,
    }
}

/// The diffs of the keys `ks`, in order, skipping unchanged keys.
pub open spec fn diff_over<T: Diffable>(
    old: Seq<(Seq<char>, T::V)>,
    new: Seq<(Seq<char>, T::V)>,
    ks: Seq<Seq<char>>,
) -> Seq<ItemDiffView>
    decreases ks.len(),
{
    if ks.len() == 0 {
        Seq::empty()
    } else {
        let prev = diff_over::<T>(old, new, ks.drop_last());
        match item_diff::<T>(old, new, ks.last()) {
            Some(d) => prev.push(d),
            None => prev,
        }
    }
}

/// The diffs of every key of either version, in increasing key order.
pub open spec fn diff_entries<T: Diffable>(old: Seq<(Seq<char>, T::V)>, new: Seq<(Seq<char>, T::V)>) -> Seq<ItemDiffView> {
    diff_over::<T>(old, new, sorted_union(entry_keys(old), entry_keys(new)))
}

/// Position of the first entry named `key`.
fn find_entry<T: View>(v: &Vec<(String, T)>, key: &str) -> (res: Option<usize>)
    ensures
        match res {
            Some(i) => i < v@.len() && i as int == first_index(entry_keys(pairs_view(v@)), key@),
            None => first_index(entry_keys(pairs_view(v@)), key@) == -1,
        },
{
    let ghost ks = entry_keys(pairs_view(v@));
    proof {
        lemma_first_index(ks, key@);
    }
    let mut i: usize = 0;
    while i < v.len()
        invariant
            ks == entry_keys(pairs_view(v@)),
            ks.len() == v@.len(),
            i <= v@.len(),
            forall|j: int| 0 <= j < i ==> ks[j] != key@,
            -1 <= first_index(ks, key@) < ks.len(),
            first_index(ks, key@) >= 0 ==> ks[first_index(ks, key@)] == key@,
            first_index(ks, key@) >= 0 ==> forall|j: int| 0 <= j < first_index(ks, key@) ==> ks[j] != key@,
            first_index(ks, key@) == -1 <==> !ks.contains(key@),
        decreases v@.len() - i,
    {
        if text_eq(v[i].0.as_str(), key) {
            proof {
                assert(ks[i as int] == key@);
                assert(ks.contains(key@));
            }
            return Some(i);
        }
        i = i + 1;
    }
    proof {
        if first_index(ks, key@) >= 0 {
            assert(ks[first_index(ks, key@)] == key@);
        }
    }
    None
}

fn entry_lookup_index<T: View>(v: &Vec<(String, T)>, key: &str) -> (res: Option<usize>)
    ensures
        match res {
            Some(i) => i < v@.len() && entry_lookup(pairs_view(v@), key@) == Some(v@[i as int].1@),
            None => entry_lookup(pairs_view(v@), key@) is None,
        },
{
    find_entry(v, key)
}

/// The field changes between two parties.
pub fn compare_party(old: &Party, new: &Party) -> (res: Vec<FieldChange>)
    ensures
        views(res@) == party_changes(old@, new@),
{
    old.changes(new)
}

/// The field changes between two event definitions.
pub fn compare_event(old: &EventDef, new: &EventDef) -> (res: Vec<FieldChange>)
    ensures
        views(res@) == event_changes(old@, new@),
{
    old.changes(new)
}

/// The field changes between two terms.
pub fn compare_term(old: &Term, new: &Term) -> (res: Vec<FieldChange>)
    ensures
        views(res@) == term_changes(old@, new@),
{
    old.changes(new)
}

/// The field changes between two obligations.
pub fn compare_obligation(old: &ObligationDef, new: &ObligationDef) -> (res: Vec<FieldChange>)
    ensures
        views(res@) == obligation_changes(old@, new@),
{
    old.changes(new)
}

/// The field changes between two remedies.
pub fn compare_remedy(old: &RemedyDef, new: &RemedyDef) -> (res: Vec<FieldChange>)
    ensures
        views(res@) == remedy_changes(old@, new@),
{
    old.changes(new)
}

/// The field changes between two phases.
pub fn compare_phase(old: &PhaseDef, new: &PhaseDef) -> (res: Vec<FieldChange>)
    ensures
        views(res@) == phase_changes(old@, new@),
{
    old.changes(new)
}

/// The diff of two lists of named items (see `diff_entries`).
pub fn diff_named_maps<T: Diffable>(old_vec: &Vec<(String, T)>, new_vec: &Vec<(String, T)>) -> (res: Vec<ItemDiff>)
    ensures
        views(res@) == diff_entries::<T>(pairs_view(old_vec@), pairs_view(new_vec@)),
{
    let ghost old_v = pairs_view(old_vec@);
    let ghost new_v = pairs_view(new_vec@);
    let mut keys: Vec<String> = Vec::new();
    let mut i: usize = 0;
    while i < old_vec.len()
        invariant
            i <= old_vec@.len(),
            texts(keys@) == entry_keys(pairs_view(old_vec@)).take(i as int),
        decreases old_vec@.len() - i,
    {
        let ghost before = texts(keys@);
        proof {
            assert(entry_keys(pairs_view(old_vec@))[i as int] == old_vec@[i as int].0@);
        }
        keys.push(old_vec[i].0.clone());
        i = i + 1;
        proof {
            assert(texts(keys@) =~= before.push(old_vec@[i - 1].0@));
            assert(texts(keys@) =~= entry_keys(pairs_view(old_vec@)).take(i as int));
        }
    }
    let mut j: usize = 0;
    proof {
        assert(entry_keys(pairs_view(old_vec@)).take(i as int) =~= entry_keys(pairs_view(old_vec@)));
    }
    while j < new_vec.len()
        invariant
            j <= new_vec@.len(),
            texts(keys@) == entry_keys(pairs_view(old_vec@)) + entry_keys(pairs_view(new_vec@)).take(j as int),
        decreases new_vec@.len() - j,
    {
        let ghost before = texts(keys@);
        proof {
            assert(entry_keys(pairs_view(new_vec@))[j as int] == new_vec@[j as int].0@);
        }
        keys.push(new_vec[j].0.clone());
        j = j + 1;
        proof {
            assert(texts(keys@) =~= before.push(new_vec@[j - 1].0@));
            assert(texts(keys@) =~= entry_keys(pairs_view(old_vec@)) + entry_keys(pairs_view(new_vec@)).take(j as int));
        }
    }
    let ks = sorted_set(&keys);
    let ghost kt = texts(ks@);
    proof {
        let a = entry_keys(old_v);
        let b = entry_keys(new_v);
        assert(entry_keys(pairs_view(new_vec@)).take(j as int) =~= b);
        assert forall|x: Seq<char>| #[trigger] kt.contains(x) <==> (a.contains(x) || b.contains(x)) by {
            assert(texts(keys@) =~= a + b);
            if (a + b).contains(x) {
                let k = choose|k: int| 0 <= k < (a + b).len() && #[trigger] (a + b)[k] == x;
                if k < a.len() {
                    assert(a[k] == x);
                } else {
                    assert(b[k - a.len()] == x);
                }
            }
            if a.contains(x) {
                let k = choose|k: int| 0 <= k < a.len() && #[trigger] a[k] == x;
                assert((a + b)[k] == x);
            }
            if b.contains(x) {
                let k = choose|k: int| 0 <= k < b.len() && #[trigger] b[k] == x;
                assert((a + b)[a.len() + k] == x);
            }
        }
        lemma_sorted_union(a, b, kt);
    }
    let mut diffs: Vec<ItemDiff> = Vec::new();
    let mut k: usize = 0;
    proof {
        assert(kt.take(0) =~= Seq::<Seq<char>>::empty());
    }
    while k < ks.len()
        invariant
            kt == texts(ks@),
            old_v == pairs_view(old_vec@),
            new_v == pairs_view(new_vec@),
            k <= ks@.len(),
            views(diffs@) == diff_over::<T>(old_v, new_v, kt.take(k as int)),
        decreases ks@.len() - k,
    {
        let key = &ks[k];
        proof {
            assert(kt.take(k + 1).drop_last() =~= kt.take(k as int));
            assert(kt.take(k + 1).last() == key@);
        }
        let o = entry_lookup_index(old_vec, key.as_str());
        let n = entry_lookup_index(new_vec, key.as_str());
        let ghost before = views(diffs@);
        match (o, n) {
            (None, Some(_)) => {
                let d = ItemDiff { key: key.clone(), kind: ItemDiffKind::Added, changes: Vec::new() };
                proof {
                    assert(views(d.changes@) =~= Seq::<FieldChangeView>::empty());
                    assert(item_diff::<T>(old_v, new_v, key@) == Some(ItemDiffView { key: key@, kind: ItemDiffKind::Added, changes: Seq::empty() }));
                    assert(d@ =~~= item_diff::<T>(old_v, new_v, key@)->0);
                }
                diffs.push(d);
                proof {
                    assert(views(diffs@) =~= before.push(item_diff::<T>(old_v, new_v, key@)->0));
                }
            },
            (Some(_), None) => {
                let d = ItemDiff { key: key.clone(), kind: ItemDiffKind::Removed, changes: Vec::new() };
                proof {
                    assert(views(d.changes@) =~= Seq::<FieldChangeView>::empty());
                    assert(item_diff::<T>(old_v, new_v, key@) == Some(ItemDiffView { key: key@, kind: ItemDiffKind::Removed, changes: Seq::empty() }));
                    assert(d@ =~~= item_diff::<T>(old_v, new_v, key@)->0);
                }
                diffs.push(d);
                proof {
                    assert(views(diffs@) =~= before.push(item_diff::<T>(old_v, new_v, key@)->0));
                }
            },
            (Some(a), Some(b)) => {
                if !old_vec[a].1.same(&new_vec[b].1) {
                    let changes = old_vec[a].1.changes(&new_vec[b].1);
                    diffs.push(ItemDiff { key: key.clone(), kind: ItemDiffKind::Changed, changes });
                    proof {
                        assert(views(diffs@) =~= before.push(item_diff::<T>(old_v, new_v, key@)->0));
                    }
                }
            },
            (None, None) => {},
        }
        k = k + 1;
    }
    proof {
        assert(kt.take(k as int) =~= kt);
    }
    diffs
}

/// The phases of the remedies, each under the key `remedy.phase`.
pub open spec fn flat_phases(rs: Seq<(Seq<char>, RemedyView)>) -> Seq<(Seq<char>, PhaseView)>
    decreases rs.len(),
{
    if rs.len() == 0 {
        Seq::empty()
    } else {
        let r = rs.last().1;
        flat_phases(rs.drop_last()) + r.phases.map_values(|p: PhaseView| (scoped_name(r.name, p.name), p))
    }
}

/// The phases of the contract's remedies, each under `remedy.phase`.
pub fn flatten_phases(contract: &ContractDef) -> (res: Vec<(String, PhaseDef)>)
    ensures
        pairs_view(res@) == flat_phases(contract@.remedies),
{
    let ghost rs = contract@.remedies;
    let mut out: Vec<(String, PhaseDef)> = Vec::new();
    let mut i: usize = 0;
    proof {
        contract.remedies.lemma_view();
        assert(rs.take(0) =~= Seq::<(Seq<char>, RemedyView)>::empty());
    }
    while i < contract.remedies.len()
        invariant
            rs == contract@.remedies,
            rs.len() == contract.remedies.vals().len(),
            i <= rs.len(),
            pairs_view(out@) == flat_phases(rs.take(i as int)),
        decreases rs.len() - i,
    {
        let remedy = contract.remedies.value_at(i);
        proof {
            contract.remedies.lemma_view();
            assert(rs[i as int].1 == remedy@);
        }
        let ghost base = pairs_view(out@);
        let ghost ps = remedy@.phases.map_values(|p: PhaseView| (scoped_name(remedy@.name, p.name), p));
        let mut k: usize = 0;
        while k < remedy.phases.len()
            invariant
                k <= remedy.phases@.len(),
                ps == remedy@.phases.map_values(|p: PhaseView| (scoped_name(remedy@.name, p.name), p)),
                pairs_view(out@) == base + ps.take(k as int),
            decreases remedy.phases@.len() - k,
        {
            let phase = &remedy.phases[k];
            let mut key = owned(remedy.name.as_str());
            push_char(&mut key, '.');
            append_str(&mut key, phase.name.as_str());
            let pc = phase.clone();
            proof {
                assert(remedy@.phases[k as int] == phase@);
                assert(key@ == scoped_name(remedy@.name, phase@.name));
                assert(ps[k as int] == (key@, pc@));
            }
            let ghost before = pairs_view(out@);
            out.push((key, pc));
            proof {
                assert(pairs_view(out@) =~= before.push(ps[k as int]));
                assert(ps.take(k + 1) =~= ps.take(k as int).push(ps[k as int]));
            }
            k = k + 1;
            proof {
                assert(pairs_view(out@) =~= base + ps.take(k as int));
            }
        }
        proof {
            assert(ps.take(k as int) =~= ps);
            assert(rs.take(i + 1).drop_last() =~= rs.take(i as int));
        }
        i = i + 1;
    }
    proof {
        assert(rs.take(i as int) =~= rs);
    }
    out
}

/// The diff of two versions of a contract: for each kind of declaration
/// (and for remedy phases, keyed `remedy.phase`), the keys added, removed or
/// changed, in increasing key order.
pub fn diff_contracts(old_contract: &ContractDef, new_contract: &ContractDef) -> (res: ContractDiff)
    ensures
        res@.parties == diff_entries::<Party>(old_contract@.parties, new_contract@.parties),
        res@.events == diff_entries::<EventDef>(old_contract@.events, new_contract@.events),
        res@.terms == diff_entries::<Term>(old_contract@.terms, new_contract@.terms),
        res@.obligations == diff_entries::<ObligationDef>(old_contract@.obligations, new_contract@.obligations),
        res@.remedies == diff_entries::<RemedyDef>(old_contract@.remedies, new_contract@.remedies),
        res@.phases == diff_entries::<PhaseDef>(
            flat_phases(old_contract@.remedies),
            flat_phases(new_contract@.remedies),
        ),
{
    let old_phases = flatten_phases(old_contract);
    let new_phases = flatten_phases(new_contract);
    let parties = diff_named_maps(&old_contract.parties.entries(), &new_contract.parties.entries());
    let events = diff_named_maps(&old_contract.events.entries(), &new_contract.events.entries());
    let terms = diff_named_maps(&old_contract.terms.entries(), &new_contract.terms.entries());
    let obligations = diff_named_maps(&old_contract.obligations.entries(), &new_contract.obligations.entries());
    let remedies = diff_named_maps(&old_contract.remedies.entries(), &new_contract.remedies.entries());
    let phases = diff_named_maps(&old_phases, &new_phases);
    ContractDiff { parties, events, terms, obligations, remedies, phases }
}

// ---------------------------------------------------------------------------
// Rendering
// ---------------------------------------------------------------------------

/// The line describing one field change.
pub open spec fn change_line(cat: Seq<char>, key: Seq<char>, c: FieldChangeView) -> Seq<char> {
    "CHANGED: "@ + cat + " "@ + key + " \u{2014} "@ + c.field + ": "@ + c.old + " -> "@ + c.new
}

/// The lines describing one item diff.
pub open spec fn item_lines(cat: Seq<char>, d: ItemDiffView) -> Seq<Seq<char>> {
    match d.kind {
        ItemDiffKind::Added => seq!["ADDED: "@ + cat + " "@ + d.key],
        ItemDiffKind::Removed => seq!["REMOVED: "@ + cat + " "@ + d.key],
        ItemDiffKind::Changed => if d.changes.len() == 0 {
            seq!["CHANGED: "@ + cat + " "@ + d.key]
        } else {
            d.changes.map_values(|c: FieldChangeView| change_line(cat, d.key, c))
        },
    }
}

pub open spec fn category_lines(cat: Seq<char>, ds: Seq<ItemDiffView>) -> Seq<Seq<char>>
    decreases ds.len(),
{
    if ds.len() == 0 {
        Seq::empty()
    } else {
        category_lines(cat, ds.drop_last()) + item_lines(cat, ds.last())
    }
}

/// The lines of a diff, category by category; a diff with no line renders as
/// `No changes detected.`.
pub open spec fn render_lines(d: ContractDiffView) -> Seq<Seq<char>> {
    let all = category_lines("PARTY"@, d.parties) + category_lines("EVENT"@, d.events) + category_lines(
        "TERM"@,
        d.terms,
    ) + category_lines("OBLIGATION"@, d.obligations) + category_lines("REMEDY"@, d.remedies)
        + category_lines("PHASE"@, d.phases);
    if all.len() == 0 {
        seq!["No changes detected."@]
    } else {
        all
    }
}

/// Appends the lines of one category of a diff (see `category_lines`).
pub fn append_category_lines(category: &str, diffs: &Vec<ItemDiff>, lines: &mut Vec<String>)
    ensures
        texts(final(lines)@) == texts(old(lines)@) + category_lines(category@, views(diffs@)),
{
    let ghost base = texts(lines@);
    let ghost ds = views(diffs@);
    let mut i: usize = 0;
    proof {
        assert(ds.take(0) =~= Seq::<ItemDiffView>::empty());
        assert(texts(lines@) =~= base + category_lines(category@, ds.take(0)));
    }
    while i < diffs.len()
        invariant
            ds == views(diffs@),
            i <= ds.len(),
            texts(lines@) == base + category_lines(category@, ds.take(i as int)),
        decreases ds.len() - i,
    {
        let item = &diffs[i];
        let ghost before = texts(lines@);
        proof {
            assert(ds.take(i + 1).drop_last() =~= ds.take(i as int));
            assert(ds.take(i + 1).last() == item@);
        }
        match item.kind {
            ItemDiffKind::Added => {
                let mut s = owned("ADDED: ");
                append_str(&mut s, category);
                append_str(&mut s, " ");
                append_str(&mut s, item.key.as_str());
                lines.push(s);
                proof {
                    assert(texts(lines@) =~= before + item_lines(category@, item@));
                }
            },
            ItemDiffKind::Removed => {
                let mut s = owned("REMOVED: ");
                append_str(&mut s, category);
                append_str(&mut s, " ");
                append_str(&mut s, item.key.as_str());
                lines.push(s);
                proof {
                    assert(texts(lines@) =~= before + item_lines(category@, item@));
                }
            },
            ItemDiffKind::Changed => {
                if item.changes.len() == 0 {
                    let mut s = owned("CHANGED: ");
                    append_str(&mut s, category);
                    append_str(&mut s, " ");
                    append_str(&mut s, item.key.as_str());
                    lines.push(s);
                    proof {
                        assert(texts(lines@) =~= before + item_lines(category@, item@));
                    }
                } else {
                    let ghost cl = item_lines(category@, item@);
                    let mut c: usize = 0;
                    while c < item.changes.len()
                        invariant
                            c <= item.changes@.len(),
                            item.changes@.len() > 0,
                            item.kind == ItemDiffKind::Changed,
                            cl == item_lines(category@, item@),
                            cl.len() == item.changes@.len(),
                            texts(lines@) == before + cl.take(c as int),
                        decreases item.changes@.len() - c,
                    {
                        let ch = &item.changes[c];
                        let mut s = owned("CHANGED: ");
                        append_str(&mut s, category);
                        append_str(&mut s, " ");
                        append_str(&mut s, item.key.as_str());
                        append_str(&mut s, " \u{2014} ");
                        append_str(&mut s, ch.field.as_str());
                        append_str(&mut s, ": ");
                        append_str(&mut s, ch.old.as_str());
                        append_str(&mut s, " -> ");
                        append_str(&mut s, ch.new.as_str());
                        proof {
                            assert(item@.changes[c as int] == ch@);
                            assert(s@ == change_line(category@, item@.key, ch@));
                            assert(cl[c as int] == change_line(category@, item@.key, item@.changes[c as int]));
                        }
                        let ghost prev = texts(lines@);
                        lines.push(s);
                        proof {
                            assert(texts(lines@) =~= prev.push(cl[c as int]));
                            assert(cl.take(c + 1) =~= cl.take(c as int).push(cl[c as int]));
                        }
                        c = c + 1;
                        proof {
                            assert(texts(lines@) =~= before + cl.take(c as int));
                        }
                    }
                    proof {
                        assert(cl.take(c as int) =~= cl);
                    }
                }
            },
        }
        i = i + 1;
    }
    proof {
        assert(ds.take(i as int) =~= ds);
    }
}

/// The lines describing a diff (see `render_lines`).
pub fn render_contract_diff(diff: &ContractDiff) -> (res: Vec<String>)
    ensures
        texts(res@) == render_lines(diff@),
{
    let mut lines: Vec<String> = Vec::new();
    proof {
        assert(texts(lines@) =~= Seq::<Seq<char>>::empty());
    }
    append_category_lines("PARTY", &diff.parties, &mut lines);
    append_category_lines("EVENT", &diff.events, &mut lines);
    append_category_lines("TERM", &diff.terms, &mut lines);
    append_category_lines("OBLIGATION", &diff.obligations, &mut lines);
    append_category_lines("REMEDY", &diff.remedies, &mut lines);
    append_category_lines("PHASE", &diff.phases, &mut lines);
    proof {
        assert(texts(lines@) =~= render_lines(diff@) || render_lines(diff@) == seq!["No changes detected."@]);
    }
    if lines.len() == 0 {
        let mut v: Vec<String> = Vec::new();
        v.push(owned("No changes detected."));
        proof {
            assert(texts(v@) =~= seq!["No changes detected."@]);
        }
        v
    } else {
        lines
    }
}

// ---------------------------------------------------------------------------
// Risk warnings
// ---------------------------------------------------------------------------

/// Some remedy answers a breach of `k`.
pub open spec fn has_remedy_for(rs: Seq<(Seq<char>, RemedyView)>, k: Seq<char>) -> bool {
    exists|i: int| 0 <= i < rs.len() && (#[trigger] rs[i]).1.breach_target == k
}

pub open spec fn no_remedy_warning(k: Seq<char>) -> Seq<char> {
    "WARNING: breach of '"@ + k + "' now has no remedy"@
}

pub open spec fn removed_phase_warning(k: Seq<char>) -> Seq<char> {
    "WARNING: removed remedy phase '"@ + k + "'"@
}

/// `w` warns of a risk of the change: an obligation whose breach had a
/// remedy and has none now, or a removed remedy phase.
pub open spec fn is_warning(old: ContractView, new: ContractView, d: ContractDiffView, w: Seq<char>) -> bool {
    ||| exists|k: Seq<char>|
        #![trigger entry_keys(old.obligations).contains(k)]
        entry_keys(old.obligations).contains(k) && has_remedy_for(old.remedies, k) && !has_remedy_for(new.remedies, k)
            && w == no_remedy_warning(k)
    ||| exists|i: int|
        0 <= i < d.phases.len() && (#[trigger] d.phases[i]).kind == ItemDiffKind::Removed && w
            == removed_phase_warning(d.phases[i].key)
}

fn remedy_for(contract: &ContractDef, k: &str) -> (b: bool)
    ensures
        b == has_remedy_for(contract@.remedies, k@),
{
    let ghost rs = contract@.remedies;
    let mut i: usize = 0;
    proof {
        contract.remedies.lemma_view();
    }
    while i < contract.remedies.len()
        invariant
            rs == contract@.remedies,
            rs.len() == contract.remedies.vals().len(),
            i <= rs.len(),
            forall|j: int| 0 <= j < i ==> (#[trigger] rs[j]).1.breach_target != k@,
        decreases rs.len() - i,
    {
        proof {
            contract.remedies.lemma_view();
        }
        let r = contract.remedies.value_at(i);
        if text_eq(r.breach_target.as_str(), k) {
            proof {
                assert(rs[i as int].1 == r@);
            }
            return true;
        }
        proof {
            assert(rs[i as int].1 == r@);
        }
        i = i + 1;
    }
    false
}

/// The no-remedy warnings for the keys `ks`, in order.
pub open spec fn no_remedy_warnings(old: ContractView, new: ContractView, ks: Seq<Seq<char>>) -> Seq<Seq<char>>
    decreases ks.len(),
{
    if ks.len() == 0 {
        Seq::empty()
    } else {
        let k = ks.last();
        let prev = no_remedy_warnings(old, new, ks.drop_last());
        if has_remedy_for(old.remedies, k) && !has_remedy_for(new.remedies, k) {
            prev.push(no_remedy_warning(k))
        } else {
            prev
        }
    }
}

/// The removed-phase warnings of the phase diffs `ds`, in order.
pub open spec fn removed_phase_warnings(ds: Seq<ItemDiffView>) -> Seq<Seq<char>>
    decreases ds.len(),
{
    if ds.len() == 0 {
        Seq::empty()
    } else {
        let d = ds.last();
        let prev = removed_phase_warnings(ds.drop_last());
        if d.kind == ItemDiffKind::Removed {
            prev.push(removed_phase_warning(d.key))
        } else {
            prev
        }
    }
}

pub proof fn lemma_no_remedy_warnings(old: ContractView, new: ContractView, ks: Seq<Seq<char>>, w: Seq<char>)
    ensures
        no_remedy_warnings(old, new, ks).contains(w) <==> exists|k: Seq<char>|
            #![trigger ks.contains(k)]
            ks.contains(k) && has_remedy_for(old.remedies, k) && !has_remedy_for(new.remedies, k) && w
                == no_remedy_warning(k),
    decreases ks.len(),
{
    if ks.len() > 0 {
        let d = ks.drop_last();
        lemma_no_remedy_warnings(old, new, d, w);
        let prev = no_remedy_warnings(old, new, d);
        let cur = no_remedy_warnings(old, new, ks);
        let k = ks.last();
        if cur.contains(w) {
            if prev.contains(w) {
                let k2 = choose|k2: Seq<char>| #![trigger d.contains(k2)]
                    d.contains(k2) && has_remedy_for(old.remedies, k2) && !has_remedy_for(new.remedies, k2) && w
                        == no_remedy_warning(k2);
                let m = choose|m: int| 0 <= m < d.len() && #[trigger] d[m] == k2;
                assert(ks[m] == k2);
                assert(ks.contains(k2));
            } else {
                assert(cur =~= prev.push(no_remedy_warning(k)));
                assert(w == no_remedy_warning(k));
                assert(ks[ks.len() - 1] == k);
                assert(ks.contains(k));
            }
        }
        if exists|k2: Seq<char>|
            #![trigger ks.contains(k2)]
            ks.contains(k2) && has_remedy_for(old.remedies, k2) && !has_remedy_for(new.remedies, k2) && w
                == no_remedy_warning(k2) {
            let k2 = choose|k2: Seq<char>| #![trigger ks.contains(k2)]
                ks.contains(k2) && has_remedy_for(old.remedies, k2) && !has_remedy_for(new.remedies, k2) && w
                    == no_remedy_warning(k2);
            let m = choose|m: int| 0 <= m < ks.len() && #[trigger] ks[m] == k2;
            if m < ks.len() - 1 {
                assert(d[m] == k2);
                assert(d.contains(k2));
                assert(prev.contains(w));
                let q = choose|q: int| 0 <= q < prev.len() && #[trigger] prev[q] == w;
                if has_remedy_for(old.remedies, k) && !has_remedy_for(new.remedies, k) {
                    assert(cur[q] == w);
                }
            } else {
                assert(k2 == k);
                assert(cur =~= prev.push(no_remedy_warning(k)));
                assert(cur[cur.len() - 1] == w);
            }
        }
    }
}

pub proof fn lemma_removed_phase_warnings(ds: Seq<ItemDiffView>, w: Seq<char>)
    ensures
        removed_phase_warnings(ds).contains(w) <==> exists|i: int|
            0 <= i < ds.len() && (#[trigger] ds[i]).kind == ItemDiffKind::Removed && w == removed_phase_warning(ds[i].key),
    decreases ds.len(),
{
    if ds.len() > 0 {
        let d = ds.drop_last();
        lemma_removed_phase_warnings(d, w);
        let prev = removed_phase_warnings(d);
        let cur = removed_phase_warnings(ds);
        let last = ds.last();
        if cur.contains(w) {
            if prev.contains(w) {
                let i = choose|i: int| 0 <= i < d.len() && (#[trigger] d[i]).kind == ItemDiffKind::Removed && w
                    == removed_phase_warning(d[i].key);
                assert(ds[i] == d[i]);
            } else {
                assert(cur =~= prev.push(removed_phase_warning(last.key)));
                assert(ds[ds.len() - 1] == last);
            }
        }
        if exists|i: int| 0 <= i < ds.len() && (#[trigger] ds[i]).kind == ItemDiffKind::Removed && w
            == removed_phase_warning(ds[i].key) {
            let i = choose|i: int| 0 <= i < ds.len() && (#[trigger] ds[i]).kind == ItemDiffKind::Removed && w
                == removed_phase_warning(ds[i].key);
            if i < ds.len() - 1 {
                assert(d[i] == ds[i]);
                assert(prev.contains(w));
                let q = choose|q: int| 0 <= q < prev.len() && #[trigger] prev[q] == w;
                if last.kind == ItemDiffKind::Removed {
                    assert(cur[q] == w);
                }
            } else {
                assert(cur =~= prev.push(removed_phase_warning(last.key)));
                assert(cur[cur.len() - 1] == w);
            }
        }
    }
}

/// The warnings of a change, each once, in increasing order (see
/// `is_warning`).
pub fn generate_risk_warnings(old_contract: &ContractDef, new_contract: &ContractDef, diff: &ContractDiff) -> (res: Vec<String>)
    ensures
        strictly_sorted(texts(res@)),
        forall|w: Seq<char>| texts(res@).contains(w) <==> is_warning(old_contract@, new_contract@, diff@, w),
{
    let mut warnings: Vec<String> = Vec::new();
    let keys = old_contract.obligations.key_list();
    let ghost ks = entry_keys(old_contract@.obligations);
    proof {
        old_contract.obligations.lemma_view();
        assert(texts(keys@) == ks);
        assert(texts(warnings@) =~= no_remedy_warnings(old_contract@, new_contract@, ks.take(0)));
    }
    let mut i: usize = 0;
    while i < keys.len()
        invariant
            texts(keys@) == ks,
            ks == entry_keys(old_contract@.obligations),
            i <= keys@.len(),
            texts(warnings@) == no_remedy_warnings(old_contract@, new_contract@, ks.take(i as int)),
        decreases keys@.len() - i,
    {
        let k = &keys[i];
        let old_has = remedy_for(old_contract, k.as_str());
        let new_has = remedy_for(new_contract, k.as_str());
        let ghost before = texts(warnings@);
        proof {
            assert(ks.take(i + 1).drop_last() =~= ks.take(i as int));
            assert(ks.take(i + 1).last() == k@);
        }
        if old_has && !new_has {
            let mut w = owned("WARNING: breach of '");
            append_str(&mut w, k.as_str());
            append_str(&mut w, "' now has no remedy");
            warnings.push(w);
            proof {
                assert(texts(warnings@) =~= before.push(no_remedy_warning(k@)));
            }
        }
        i = i + 1;
    }
    let ghost first_part = texts(warnings@);
    proof {
        assert(ks.take(i as int) =~= ks);
    }
    let ghost ph = diff@.phases;
    let mut j: usize = 0;
    proof {
        assert(texts(warnings@) =~= first_part + removed_phase_warnings(ph.take(0)));
    }
    while j < diff.phases.len()
        invariant
            ph == diff@.phases,
            j <= ph.len(),
            texts(warnings@) == first_part + removed_phase_warnings(ph.take(j as int)),
        decreases ph.len() - j,
    {
        let d = &diff.phases[j];
        let ghost before = texts(warnings@);
        proof {
            assert(ph.take(j + 1).drop_last() =~= ph.take(j as int));
            assert(ph.take(j + 1).last() == d@);
        }
        if d.kind == ItemDiffKind::Removed {
            let mut w = owned("WARNING: removed remedy phase '");
            append_str(&mut w, d.key.as_str());
            append_str(&mut w, "'");
            warnings.push(w);
            proof {
                assert(texts(warnings@) =~= before.push(removed_phase_warning(d.key@)));
            }
        }
        j = j + 1;
    }
    proof {
        assert(ph.take(j as int) =~= ph);
    }
    let res = sorted_set(&warnings);
    proof {
        let all = texts(warnings@);
        let a = no_remedy_warnings(old_contract@, new_contract@, ks);
        let b = removed_phase_warnings(ph);
        assert(all == a + b);
        assert forall|w: Seq<char>| texts(res@).contains(w) <==> is_warning(old_contract@, new_contract@, diff@, w) by {
            lemma_no_remedy_warnings(old_contract@, new_contract@, ks, w);
            lemma_removed_phase_warnings(ph, w);
            if all.contains(w) {
                let q = choose|q: int| 0 <= q < all.len() && #[trigger] all[q] == w;
                if q < a.len() {
                    assert(a[q] == w);
                    assert(a.contains(w));
                } else {
                    assert(b[q - a.len()] == w);
                    assert(b.contains(w));
                }
            }
            if a.contains(w) {
                let q = choose|q: int| 0 <= q < a.len() && #[trigger] a[q] == w;
                assert(all[q] == w);
            }
            if b.contains(w) {
                let q = choose|q: int| 0 <= q < b.len() && #[trigger] b[q] == w;
                assert(all[a.len() + q] == w);
            }
        }
    }
    res
}


/// An entry list compared with itself differs in no key.
pub proof fn lemma_diff_over_same<T: Diffable>(v: Seq<(Seq<char>, T::V)>, ks: Seq<Seq<char>>)
    ensures
        diff_over::<T>(v, v, ks) == Seq::<ItemDiffView>::empty(),
    decreases ks.len(),
{
    if ks.len() > 0 {
        lemma_diff_over_same::<T>(v, ks.drop_last());
    }
}

/// The keys of a list of item diffs, in order.
pub open spec fn diff_keys(r: Seq<ItemDiffView>) -> Seq<Seq<char>> {
    r.map_values(|d: ItemDiffView| d.key)
}

proof fn lemma_diff_over_props<T: Diffable>(old: Seq<(Seq<char>, T::V)>, new: Seq<(Seq<char>, T::V)>, ks: Seq<Seq<char>>)
    requires
        strictly_sorted(ks),
    ensures
        ({
            let r = diff_over::<T>(old, new, ks);
            &&& strictly_sorted(diff_keys(r))
            &&& forall|i: int| 0 <= i < r.len() ==> ks.contains(#[trigger] r[i].key)
                && item_diff::<T>(old, new, r[i].key) == Some(r[i])
            &&& forall|k: Seq<char>| ks.contains(k) && item_diff::<T>(old, new, k) is Some
                ==> #[trigger] diff_keys(r).contains(k)
        }),
    decreases ks.len(),
{
    if ks.len() > 0 {
        let d = ks.drop_last();
        let last = ks.last();
        assert(strictly_sorted(d)) by {
            assert forall|i: int, j: int| 0 <= i < j < d.len() implies seq_lt(#[trigger] d[i], #[trigger] d[j]) by {
                assert(d[i] == ks[i] && d[j] == ks[j]);
            }
        }
        lemma_diff_over_props::<T>(old, new, d);
        let prev = diff_over::<T>(old, new, d);
        let r = diff_over::<T>(old, new, ks);
        assert forall|i: int| 0 <= i < prev.len() implies seq_lt(#[trigger] prev[i].key, last) by {
            let j = choose|j: int| 0 <= j < d.len() && d[j] == prev[i].key;
            assert(ks[j] == d[j]);
            assert(seq_lt(ks[j], ks[ks.len() - 1]));
        }
        assert forall|i: int| 0 <= i < d.len() implies ks.contains(#[trigger] d[i]) by {
            assert(ks[i] == d[i]);
        }
        match item_diff::<T>(old, new, last) {
            Some(x) => {
                assert(r == prev.push(x));
                assert(diff_keys(r) =~= diff_keys(prev).push(last));
                assert forall|i: int, j: int| 0 <= i < j < diff_keys(r).len() implies seq_lt(#[trigger] diff_keys(r)[i], #[trigger] diff_keys(r)[j]) by {
                    if j < prev.len() {
                        assert(diff_keys(r)[i] == diff_keys(prev)[i]);
                        assert(diff_keys(r)[j] == diff_keys(prev)[j]);
                    } else {
                        assert(diff_keys(r)[i] == prev[i].key);
                    }
                }
                assert forall|k: Seq<char>| ks.contains(k) && item_diff::<T>(old, new, k) is Some
                    implies #[trigger] diff_keys(r).contains(k) by {
                    if k == last {
                        assert(diff_keys(r)[prev.len() as int] == k);
                    } else {
                        let j = choose|j: int| 0 <= j < ks.len() && ks[j] == k;
                        assert(d[j] == k);
                        assert(diff_keys(prev).contains(k));
                        let m = choose|m: int| 0 <= m < diff_keys(prev).len() && diff_keys(prev)[m] == k;
                        assert(diff_keys(r)[m] == k);
                    }
                }
                assert forall|i: int| 0 <= i < r.len() implies ks.contains(#[trigger] r[i].key)
                    && item_diff::<T>(old, new, r[i].key) == Some(r[i]) by {
                    if i < prev.len() {
                        assert(r[i] == prev[i]);
                    } else {
                        assert(ks[ks.len() - 1] == last);
                    }
                }
            },
            None => {
                assert(r == prev);
                assert forall|k: Seq<char>| ks.contains(k) && item_diff::<T>(old, new, k) is Some
                    implies #[trigger] diff_keys(r).contains(k) by {
                    let j = choose|j: int| 0 <= j < ks.len() && ks[j] == k;
                    if j < ks.len() - 1 {
                        assert(d[j] == k);
                    }
                }
            },
        }
    }
}

/// The diff of two lists of named items lists, in strictly increasing key
/// order, exactly the keys on one side only (added or removed, with no
/// field changes) and the keys on both sides with different items (changed,
/// with the changes of the two items).
pub proof fn lemma_diff_entries_props<T: Diffable>(old: Seq<(Seq<char>, T::V)>, new: Seq<(Seq<char>, T::V)>)
    ensures
        ({
            let r = diff_entries::<T>(old, new);
            &&& strictly_sorted(diff_keys(r))
            &&& forall|i: int| 0 <= i < r.len() ==> item_diff::<T>(old, new, #[trigger] r[i].key) == Some(r[i])
            &&& forall|k: Seq<char>| item_diff::<T>(old, new, k) is Some <==> #[trigger] diff_keys(r).contains(k)
        }),
{
    let ks = sorted_union(entry_keys(old), entry_keys(new));
    lemma_sorted_union_spec(entry_keys(old), entry_keys(new));
    lemma_diff_over_props::<T>(old, new, ks);
    let r = diff_entries::<T>(old, new);
    assert forall|k: Seq<char>| item_diff::<T>(old, new, k) is Some <==> #[trigger] diff_keys(r).contains(k) by {
        if item_diff::<T>(old, new, k) is Some {
            lemma_entry_lookup_keys_local(old, k);
            lemma_entry_lookup_keys_local(new, k);
            assert(ks.contains(k));
        }
        if diff_keys(r).contains(k) {
            let i = choose|i: int| 0 <= i < diff_keys(r).len() && diff_keys(r)[i] == k;
            assert(r[i].key == k);
        }
    }
}

proof fn lemma_entry_lookup_keys_local<V>(m: Seq<(Seq<char>, V)>, n: Seq<char>)
    ensures
        entry_lookup(m, n) is Some ==> entry_keys(m).contains(n),
{
    lemma_first_index(entry_keys(m), n);
}

/// A contract compared with itself has no differences.
pub proof fn lemma_diff_self_empty(c: ContractView)
    ensures
        diff_entries::<Party>(c.parties, c.parties).len() == 0,
        diff_entries::<EventDef>(c.events, c.events).len() == 0,
        diff_entries::<Term>(c.terms, c.terms).len() == 0,
        diff_entries::<ObligationDef>(c.obligations, c.obligations).len() == 0,
        diff_entries::<RemedyDef>(c.remedies, c.remedies).len() == 0,
        diff_entries::<PhaseDef>(flat_phases(c.remedies), flat_phases(c.remedies)).len() == 0,
{
    lemma_diff_over_same::<Party>(c.parties, sorted_union(entry_keys(c.parties), entry_keys(c.parties)));
    lemma_diff_over_same::<EventDef>(c.events, sorted_union(entry_keys(c.events), entry_keys(c.events)));
    lemma_diff_over_same::<Term>(c.terms, sorted_union(entry_keys(c.terms), entry_keys(c.terms)));
    lemma_diff_over_same::<ObligationDef>(c.obligations, sorted_union(entry_keys(c.obligations), entry_keys(c.obligations)));
    lemma_diff_over_same::<RemedyDef>(c.remedies, sorted_union(entry_keys(c.remedies), entry_keys(c.remedies)));
    let fp = flat_phases(c.remedies);
    lemma_diff_over_same::<PhaseDef>(fp, sorted_union(entry_keys(fp), entry_keys(fp)));
}

/// A contract compared with itself raises no risk warning.
pub proof fn lemma_no_warnings_for_same(c: ContractView, d: ContractDiffView, w: Seq<char>)
    requires
        d.phases == diff_entries::<PhaseDef>(flat_phases(c.remedies), flat_phases(c.remedies)),
    ensures
        !is_warning(c, c, d, w),
{
    lemma_diff_self_empty(c);
}

/// Whether a key is present follows from what lookup gives.
proof fn lemma_lookup_contains<T>(m: Seq<(Seq<char>, T)>, k: Seq<char>)
    ensures
        entry_lookup(m, k) is Some <==> entry_keys(m).contains(k),
{
    lemma_first_index(entry_keys(m), k);
}

/// The diff of two entry lists depends only on what each key looks up to,
/// not on the order in which the entries were declared.
pub proof fn lemma_diff_order_independent<T: Diffable>(
    old1: Seq<(Seq<char>, T::V)>,
    new1: Seq<(Seq<char>, T::V)>,
    old2: Seq<(Seq<char>, T::V)>,
    new2: Seq<(Seq<char>, T::V)>,
)
    requires
        forall|k: Seq<char>| #[trigger] entry_lookup(old1, k) == entry_lookup(old2, k),
        forall|k: Seq<char>| #[trigger] entry_lookup(new1, k) == entry_lookup(new2, k),
    ensures
        diff_entries::<T>(old1, new1) == diff_entries::<T>(old2, new2),
{
    let u1 = sorted_union(entry_keys(old1), entry_keys(new1));
    let u2 = sorted_union(entry_keys(old2), entry_keys(new2));
    assert forall|x: Seq<char>| #[trigger] u2.contains(x) <==> (entry_keys(old1).contains(x) || entry_keys(new1).contains(x)) by {
        lemma_lookup_contains(old1, x);
        lemma_lookup_contains(old2, x);
        lemma_lookup_contains(new1, x);
        lemma_lookup_contains(new2, x);
        assert(entry_lookup(old1, x) == entry_lookup(old2, x));
        assert(entry_lookup(new1, x) == entry_lookup(new2, x));
        assert(u2.contains(x) <==> (entry_keys(old2).contains(x) || entry_keys(new2).contains(x))) by {
            lemma_sorted_union_spec(entry_keys(old2), entry_keys(new2));
        }
    }
    lemma_sorted_union_spec(entry_keys(old2), entry_keys(new2));
    lemma_sorted_union(entry_keys(old1), entry_keys(new1), u2);
    lemma_diff_over_same_lookups::<T>(old1, new1, old2, new2, u1);
}

proof fn lemma_diff_over_same_lookups<T: Diffable>(
    old1: Seq<(Seq<char>, T::V)>,
    new1: Seq<(Seq<char>, T::V)>,
    old2: Seq<(Seq<char>, T::V)>,
    new2: Seq<(Seq<char>, T::V)>,
    ks: Seq<Seq<char>>,
)
    requires
        forall|k: Seq<char>| #[trigger] entry_lookup(old1, k) == entry_lookup(old2, k),
        forall|k: Seq<char>| #[trigger] entry_lookup(new1, k) == entry_lookup(new2, k),
    ensures
        diff_over::<T>(old1, new1, ks) == diff_over::<T>(old2, new2, ks),
    decreases ks.len(),
{
    if ks.len() > 0 {
        lemma_diff_over_same_lookups::<T>(old1, new1, old2, new2, ks.drop_last());
        assert(entry_lookup(old1, ks.last()) == entry_lookup(old2, ks.last()));
        assert(entry_lookup(new1, ks.last()) == entry_lookup(new2, ks.last()));
    }
}

} // verus!
