//! The contract runtime: obligation states evaluated over time, what-if
//! simulation on forks, and breach cascades.

use vstd::prelude::*;
use crate::calendar::{add_business_days, clamp_day};
use crate::namemap::{NameMap, entry_keys, entry_lookup, entry_insert, entry_remove, opt_view};
use crate::semantics::{
    EvalCtx, EvalState, RuntimeItem, state_of, resolve_key, scoped_name, event_first_date,
    cond_holds, cond_met, calendar_for, duration_end, selected_calendar, term_due, due_date,
    eval_item, run_items, contract_items, obligations_items, remedies_items, remedy_items,
    obligation_item, phase_item, potential, progressed, settle, breach_anchor, add_days,
    lemma_run_items, lemma_potential_le, lemma_settle,
    deadlines_countable, due_countable, duration_countable,
};
use crate::text::{owned, push_char, append_str, decimal, decimal_string};
use crate::dates::{day_text, format_day};
use crate::cascade::{BreachCascade, LinkView, links_sorted, in_cascade, trace_cascade};
use crate::types::{
    ObligationState, ContractDef, ContractView, CalendarRegistry, RegistryView, CalendarDef,
    EventOccurrence, EventOccurrenceView, ConditionExpr, DueDef, Duration, DurationUnit, TermAnchor,
    TermView, PhaseView,
    views,
};

verus! {

/// The runtime of one contract.
#[derive(Debug)]
pub struct ContractRuntime {
    pub contract: ContractDef,
    pub states: NameMap<ObligationState>,
    pub events: Vec<EventOccurrence>,
    pub current_date: Option<i64>,
    pub calendar_registry: CalendarRegistry,
    breach_dates: NameMap<i64>,
}

/// The runtime as mathematical values.
pub struct RuntimeView {
    pub contract: ContractView,
    pub states: Seq<(Seq<char>, ObligationState)>,
    pub events: Seq<EventOccurrenceView>,
    pub current_date: Option<i64>,
    pub registry: RegistryView,
    /// The day each breached item was first breached.
    pub breach: Seq<(Seq<char>, i64)>,
}

impl View for ContractRuntime {
    type V = RuntimeView;

    closed spec fn view(&self) -> RuntimeView {
        RuntimeView {
            contract: self.contract@,
            states: self.states@,
            events: views(self.events@),
            current_date: self.current_date,
            registry: self.calendar_registry@,
            breach: self.breach_dates@,
        }
    }
}

/// What an evaluation at `date` reads.
pub open spec fn ctx_of(rv: RuntimeView, date: i64) -> EvalCtx {
    EvalCtx { terms: rv.contract.terms, events: rv.events, registry: rv.registry, date }
}

/// What an evaluation changes.
pub open spec fn st_of(rv: RuntimeView) -> EvalState {
    EvalState { states: rv.states, breach: rv.breach }
}

/// The runtime after evaluating every item at `date` until nothing changes.
pub open spec fn spec_evaluate_at(rv: RuntimeView, date: i64) -> RuntimeView {
    let fin = settle(ctx_of(rv, date), contract_items(rv.contract), st_of(rv));
    RuntimeView { states: fin.states, breach: fin.breach, current_date: Some(date), ..rv }
}

/// The runtime after recording event `name` on `date` and evaluating at `date`.
pub open spec fn spec_trigger(rv: RuntimeView, name: Seq<char>, date: i64) -> RuntimeView {
    spec_evaluate_at(
        RuntimeView { events: rv.events.push(EventOccurrenceView { name, date }), ..rv },
        date,
    )
}

/// The runtime after marking `name` satisfied, when it has a state; its
/// breach date, if any, is forgotten.
pub open spec fn spec_satisfy(rv: RuntimeView, name: Seq<char>) -> RuntimeView {
    if entry_keys(rv.states).contains(name) {
        RuntimeView {
            states: entry_insert(rv.states, name, ObligationState::Satisfied),
            breach: entry_remove(rv.breach, name),
            ..rv
        }
    } else {
        rv
    }
}

/// The runtime after triggering each event in turn.
pub open spec fn trigger_all(rv: RuntimeView, evs: Seq<(Seq<char>, i64)>) -> RuntimeView
    decreases evs.len(),
{
    if evs.len() == 0 {
        rv
    } else {
        let prev = trigger_all(rv, evs.drop_last());
        spec_trigger(prev, evs.last().0, evs.last().1)
    }
}

/// The latest date among the events.
pub open spec fn latest_date(evs: Seq<(Seq<char>, i64)>) -> Option<i64>
    decreases evs.len(),
{
    if evs.len() == 0 {
        None
    } else {
        let d = evs.last().1;
        match latest_date(evs.drop_last()) {
            Some(p) => if p > d { Some(p) } else { Some(d) },
            None => Some(d),
        }
    }
}

/// The runtime after triggering the events and then evaluating at `at`, or
/// at the latest event date when `at` is absent.
pub open spec fn spec_apply(rv: RuntimeView, evs: Seq<(Seq<char>, i64)>, at: Option<i64>) -> RuntimeView {
    let after = trigger_all(rv, evs);
    let when = match at {
        Some(d) => Some(d),
        None => latest_date(evs),
    };
    match when {
        Some(d) => spec_evaluate_at(after, d),
        None => after,
    }
}

/// Triggering events keeps the contract and the calendar registry.
pub proof fn lemma_trigger_all_keeps(rv: RuntimeView, evs: Seq<(Seq<char>, i64)>)
    ensures
        trigger_all(rv, evs).contract == rv.contract,
        trigger_all(rv, evs).registry == rv.registry,
    decreases evs.len(),
{
    if evs.len() > 0 {
        lemma_trigger_all_keeps(rv, evs.drop_last());
    }
}

/// The latest of the event dates: none without events; otherwise one of
/// the dates, and no date is later.
pub proof fn lemma_latest_date(evs: Seq<(Seq<char>, i64)>)
    ensures
        evs.len() == 0 <==> latest_date(evs) is None,
        latest_date(evs) matches Some(d) ==> {
            &&& forall|i: int| 0 <= i < evs.len() ==> evs[i].1 <= d
            &&& exists|i: int| 0 <= i < evs.len() && evs[i].1 == d
        },
    decreases evs.len(),
{
    if evs.len() > 0 {
        let prev = evs.drop_last();
        lemma_latest_date(prev);
        let d = latest_date(evs)->0;
        assert forall|i: int| 0 <= i < evs.len() implies evs[i].1 <= d by {
            if i < prev.len() {
                assert(prev[i] == evs[i]);
            }
        }
        match latest_date(prev) {
            Some(p) => {
                if p > evs.last().1 {
                    let i = choose|i: int| 0 <= i < prev.len() && prev[i].1 == p;
                    assert(evs[i] == prev[i]);
                } else {
                    assert(evs[evs.len() - 1].1 == d);
                }
            },
            None => {
                assert(evs[evs.len() - 1].1 == d);
            },
        }
    }
}

/// Without an evaluation date, a simulation with events is evaluated at the
/// latest event date: a date of one of the events, none of them later.
pub proof fn lemma_apply_at_latest(rv: RuntimeView, evs: Seq<(Seq<char>, i64)>)
    requires
        evs.len() > 0,
    ensures
        exists|i: int| 0 <= i < evs.len()
            && spec_apply(rv, evs, None) == spec_evaluate_at(trigger_all(rv, evs), #[trigger] evs[i].1)
            && forall|j: int| 0 <= j < evs.len() ==> evs[j].1 <= evs[i].1,
        spec_apply(rv, evs, None).current_date matches Some(d)
            && forall|j: int| 0 <= j < evs.len() ==> evs[j].1 <= d,
{
    lemma_latest_date(evs);
    let d = latest_date(evs)->0;
    let i = choose|i: int| 0 <= i < evs.len() && evs[i].1 == d;
    assert(spec_apply(rv, evs, None) == spec_evaluate_at(trigger_all(rv, evs), evs[i].1));
}

/// A simulation keeps the contract and the calendar registry.
pub proof fn lemma_apply_keeps(rv: RuntimeView, evs: Seq<(Seq<char>, i64)>, at: Option<i64>)
    ensures
        spec_apply(rv, evs, at).contract == rv.contract,
        spec_apply(rv, evs, at).registry == rv.registry,
{
    lemma_trigger_all_keeps(rv, evs);
}

/// The names and dates of a list of hypothetical events.
pub open spec fn event_pairs(evs: Seq<(String, i64)>) -> Seq<(Seq<char>, i64)> {
    evs.map_values(|e: (String, i64)| (e.0@, e.1))
}

pub open spec fn opt_str_view(o: Option<&str>) -> Option<Seq<char>> {
    match o {
        Some(s) => Some(s@),
        None => None,
    }
}


/// A runtime item's state at a glance.
#[derive(Debug, Clone, PartialEq, Eq)]
pub struct ObligationSnapshot {
    pub name: String,
    pub state: ObligationState,
    pub due_date: Option<i64>,
    pub days_overdue: Option<i64>,
}

pub struct SnapshotView {
    pub name: Seq<char>,
    pub state: ObligationState,
    pub due_date: Option<i64>,
    pub days_overdue: Option<i64>,
}

impl View for ObligationSnapshot {
    type V = SnapshotView;

    open spec fn view(&self) -> SnapshotView {
        SnapshotView {
            name: self.name@,
            state: self.state,
            due_date: self.due_date,
            days_overdue: self.days_overdue,
        }
    }
}

/// `i` is the position of the first `.` in `s`.
pub open spec fn is_first_dot(s: Seq<char>, i: int) -> bool {
    0 <= i < s.len() && s[i] == '.' && forall|j: int| 0 <= j < i ==> s[j] != '.'
}

/// Position of the first `.` in `s`, if any.
pub open spec fn first_dot(s: Seq<char>) -> Option<int> {
    if exists|i: int| is_first_dot(s, i) {
        Some(choose|i: int| is_first_dot(s, i))
    } else {
        None
    }
}

/// `i` is the position of the first phase named `n`.
pub open spec fn is_first_phase(ps: Seq<PhaseView>, n: Seq<char>, i: int) -> bool {
    0 <= i < ps.len() && ps[i].name == n && forall|j: int| 0 <= j < i ==> ps[j].name != n
}

/// The first phase named `n`, if any.
pub open spec fn first_phase(ps: Seq<PhaseView>, n: Seq<char>) -> Option<PhaseView> {
    if exists|i: int| is_first_phase(ps, n, i) {
        Some(ps[choose|i: int| is_first_phase(ps, n, i)])
    } else {
        None
    }
}

/// The due date of the runtime item `name`: an obligation (by key), a remedy
/// (by key) or, for `remedy.phase` (split at the first `.`), the first phase
/// of that name of that remedy.
pub open spec fn item_due(rv: RuntimeView, name: Seq<char>) -> Option<i64> {
    let ctx = ctx_of(rv, 0);
    let st = st_of(rv);
    match entry_lookup(rv.contract.obligations, name) {
        Some(o) => due_date(ctx, st, o.due, None),
        None => match entry_lookup(rv.contract.remedies, name) {
            Some(r) => due_date(ctx, st, r.due, Some(r.name)),
            None => match first_dot(name) {
                Some(i) => match entry_lookup(rv.contract.remedies, name.take(i)) {
                    Some(r) => match first_phase(r.phases, name.skip(i + 1)) {
                        Some(p) => due_date(ctx, st, p.due, Some(r.name)),
                        None => None,
                    },
                    None => None,
                },
                None => None,
            },
        },
    }
}

/// The snapshot of the runtime item `name`: its state, its due date and,
/// for an active or breached item past its due date, the days since.
pub open spec fn snapshot_of(rv: RuntimeView, name: Seq<char>) -> SnapshotView {
    let state = state_of(rv.states, name);
    let due = item_due(rv, name);
    let overdue = match (rv.current_date, due) {
        (Some(c), Some(d)) => if (state == ObligationState::Active || state == ObligationState::Breached) && c > d {
            Some(clamp_day(c - d))
        } else {
            None
        },
        _ => None,
    };
    SnapshotView { name, state, due_date: due, days_overdue: overdue }
}

/// The names of a list of snapshots.
pub open spec fn snapshot_names(v: Seq<ObligationSnapshot>) -> Seq<Seq<char>> {
    v.map_values(|s: ObligationSnapshot| s.name@)
}

/// How a state is shown.
pub open spec fn state_label(s: ObligationState) -> Seq<char> {
    match s {
        ObligationState::Pending => "PENDING"@,
        ObligationState::Active => "ACTIVE"@,
        ObligationState::Satisfied => "SATISFIED"@,
        ObligationState::Breached => "BREACHED"@,
        ObligationState::Remedied => "REMEDIED"@,
    }
}

/// How a snapshot is shown: `NAME: STATE`, then `(blocked - condition not
/// met)` for a pending item, else the due date if known and, when overdue,
/// `OVERDUE by N day(s)`.
pub open spec fn snapshot_text(s: SnapshotView) -> Seq<char> {
    let head = s.name + ": "@ + state_label(s.state);
    if s.state == ObligationState::Pending {
        head + " (blocked - condition not met)"@
    } else {
        match s.due_date {
            Some(due) => if s.days_overdue is Some && s.days_overdue->0 > 0 {
                let days = s.days_overdue->0;
                head + " (due "@ + day_text(due) + ", OVERDUE by "@ + decimal(days as nat) + (if days == 1 {
                    " day)"@
                } else {
                    " days)"@
                })
            } else {
                head + " (due "@ + day_text(due) + ")"@
            },
            None => head,
        }
    }
}

fn state_label_text(s: ObligationState) -> (res: &'static str)
    ensures
        res@ == state_label(s),
{
    match s {
        ObligationState::Pending => "PENDING",
        ObligationState::Active => "ACTIVE",
        ObligationState::Satisfied => "SATISFIED",
        ObligationState::Breached => "BREACHED",
        ObligationState::Remedied => "REMEDIED",
    }
}

impl ObligationSnapshot {
    /// The snapshot as shown to users (see `snapshot_text`).
    pub fn to_string(&self) -> (res: String)
        ensures
            res@ == snapshot_text(self@),
    {
        let mut out = owned(self.name.as_str());
        append_str(&mut out, ": ");
        append_str(&mut out, state_label_text(self.state));
        if self.state == ObligationState::Pending {
            append_str(&mut out, " (blocked - condition not met)");
            return out;
        }
        match self.due_date {
            Some(due) => {
                append_str(&mut out, " (due ");
                let d = format_day(due);
                append_str(&mut out, d.as_str());
                match self.days_overdue {
                    Some(days) => if days > 0 {
                        append_str(&mut out, ", OVERDUE by ");
                        let n = decimal_string(days as u64);
                        append_str(&mut out, n.as_str());
                        if days == 1 {
                            append_str(&mut out, " day)");
                        } else {
                            append_str(&mut out, " days)");
                        }
                        return out;
                    },
                    None => {},
                }
                append_str(&mut out, ")");
                out
            },
            None => out,
        }
    }
}

/// Position of the first `.` in `cs`.
fn dot_position(cs: &Vec<char>) -> (res: Option<usize>)
    ensures
        match res {
            Some(i) => first_dot(cs@) == Some(i as int),
            None => first_dot(cs@) is None,
        },
{
    let mut i: usize = 0;
    while i < cs.len()
        invariant
            i <= cs@.len(),
            forall|j: int| 0 <= j < i ==> cs@[j] != '.',
        decreases cs@.len() - i,
    {
        if cs[i] == '.' {
            proof {
                assert(is_first_dot(cs@, i as int));
                let k = choose|k: int| is_first_dot(cs@, k);
                assert(k == i);
            }
            return Some(i);
        }
        i = i + 1;
    }
    proof {
        assert forall|k: int| !is_first_dot(cs@, k) by {}
    }
    None
}

impl ContractRuntime {
    /// The maps name each item once.
    pub closed spec fn wf(&self) -> bool {
        &&& self.contract.wf()
        &&& self.states.wf()
        &&& self.calendar_registry.wf()
        &&& self.breach_dates.wf()
    }

    /// The state recorded under `key` (pending when there is none).
    fn state_lookup(&self, key: &str) -> (res: ObligationState)
        ensures
            res == state_of(self.states@, key@),
    {
        proof {
            self.states.lemma_lookup_view(key@);
        }
        match self.states.get(key) {
            Some(s) => *s,
            None => ObligationState::Pending,
        }
    }

    fn first_event_date(&self, name: &str) -> (res: Option<i64>)
        ensures
            res == event_first_date(views(self.events@), name@),
    {
        let ghost evs = views(self.events@);
        let mut res: Option<i64> = None;
        let mut i: usize = 0;
        proof {
            assert(evs.take(0) =~= Seq::<EventOccurrenceView>::empty());
        }
        while i < self.events.len()
            invariant
                evs == views(self.events@),
                i <= self.events@.len(),
                res == event_first_date(evs.take(i as int), name@),
            decreases self.events@.len() - i,
        {
            let e = &self.events[i];
            proof {
                assert(evs.take(i + 1).drop_last() =~= evs.take(i as int));
                assert(evs.take(i + 1).last() == e@);
            }
            if crate::text::text_eq(e.name.as_str(), name) {
                res = match res {
                    Some(d) => if d <= e.date { Some(d) } else { Some(e.date) },
                    None => Some(e.date),
                };
            }
            i = i + 1;
        }
        proof {
            assert(evs.take(i as int) =~= evs);
        }
        res
    }

    fn resolve_state_key(&self, name: &str, scope: Option<&str>) -> (res: String)
        ensures
            res@ == resolve_key(self.states@, name@, opt_str_view(scope)),
    {
        proof {
            self.states.lemma_view();
        }
        if self.states.contains_key(name) {
            return owned(name);
        }
        match scope {
            Some(s) => {
                let mut scoped = owned(s);
                push_char(&mut scoped, '.');
                append_str(&mut scoped, name);
                assert(scoped@ == scoped_name(s@, name@));
                if self.states.contains_key(scoped.as_str()) {
                    scoped
                } else {
                    owned(name)
                }
            },
            None => owned(name),
        }
    }

    fn is_breached(&self, target: &str, scope: Option<&str>) -> (b: bool)
        ensures
            b == (state_of(self.states@, resolve_key(self.states@, target@, opt_str_view(scope)))
                == ObligationState::Breached),
    {
        let resolved = self.resolve_state_key(target, scope);
        self.state_lookup(resolved.as_str()) == ObligationState::Breached
    }

    fn evaluate_condition(&self, expr: &ConditionExpr, scope: Option<&str>, date: i64) -> (b: bool)
        ensures
            b == cond_holds(self.states@, views(self.events@), date, expr@, opt_str_view(scope)),
        decreases expr,
    {
        match expr {
            ConditionExpr::After(e) => match self.first_event_date(e.as_str()) {
                Some(d) => date >= d,
                None => false,
            },
            ConditionExpr::Before(e) => match self.first_event_date(e.as_str()) {
                Some(d) => date < d,
                None => false,
            },
            ConditionExpr::Satisfied(n) => {
                let resolved = self.resolve_state_key(n.as_str(), scope);
                self.state_lookup(resolved.as_str()) == ObligationState::Satisfied
            },
            ConditionExpr::Occurred(e) => self.first_event_date(e.as_str()).is_some(),
            ConditionExpr::And(l, r) => {
                let a = self.evaluate_condition(l, scope, date);
                let b = self.evaluate_condition(r, scope, date);
                a && b
            },
            ConditionExpr::Or(l, r) => {
                let a = self.evaluate_condition(l, scope, date);
                let b = self.evaluate_condition(r, scope, date);
                a || b
            },
        }
    }

    fn is_condition_met(&self, condition: Option<&ConditionExpr>, scope: Option<&str>, date: i64) -> (b: bool)
        ensures
            b == cond_met(self.states@, views(self.events@), date, opt_view(condition), opt_str_view(scope)),
    {
        match condition {
            Some(c) => self.evaluate_condition(c, scope, date),
            None => true,
        }
    }

    fn calendar_for_id(&self, id: &str) -> (res: Option<&CalendarDef>)
        ensures
            opt_view(res) == calendar_for(self.calendar_registry@, id@),
    {
        let cals = &self.calendar_registry.calendars;
        proof {
            cals.lemma_lookup_view(id@);
            cals.lemma_lookup_view(self.calendar_registry.default_calendar_id@);
            cals.lemma_keys_vals_len();
            crate::namemap::lemma_first_index(cals.keys(), id@);
            crate::namemap::lemma_first_index(cals.keys(), self.calendar_registry.default_calendar_id@);
        }
        match cals.get(id) {
            Some(c) => Some(c),
            None => cals.get(self.calendar_registry.default_calendar_id.as_str()),
        }
    }

    fn add_duration(&self, date: i64, duration: &Duration, calendar_id: &str) -> (res: i64)
        requires
            duration_countable(self.calendar_registry@, *duration, calendar_id@),
        ensures
            res == duration_end(self.calendar_registry@, date, *duration, calendar_id@),
    {
        match duration.unit {
            DurationUnit::CalendarDays => add_calendar_days(date, duration.amount),
            DurationUnit::BusinessDays => match self.calendar_for_id(calendar_id) {
                Some(c) => add_business_days(date, duration.amount, c),
                None => add_calendar_days(date, duration.amount),
            },
        }
    }

    /// The calendar that business days of term `term_name` are counted on:
    /// the term's own calendar when the registry has it, none when the term
    /// names an unknown calendar, and the default calendar when it names none.
    pub fn selected_calendar_id_for_term(&self, term_name: &str) -> (res: Option<&str>)
        ensures
            opt_str_view(res) == selected_calendar(self@.contract.terms, self@.registry, term_name@),
    {
        proof {
            self.contract.terms.lemma_lookup_view(term_name@);
            self.calendar_registry.calendars.lemma_view();
        }
        let term = match self.contract.terms.get(term_name) {
            Some(t) => t,
            None => return None,
        };
        match &term.calendar_ref {
            Some(c) => if self.calendar_registry.has_calendar(c.as_str()) {
                Some(c.as_str())
            } else {
                None
            },
            None => Some(self.calendar_registry.default_calendar_id.as_str()),
        }
    }

    fn breach_date_of(&self, key: &str) -> (res: Option<i64>)
        ensures
            res == entry_lookup(self@.breach, key@),
    {
        proof {
            self.breach_dates.lemma_lookup_view(key@);
        }
        match self.breach_dates.get(key) {
            Some(d) => Some(*d),
            None => None,
        }
    }

    fn resolve_term_due_date(&self, term_name: &str, scope: Option<&str>, Ghost(date): Ghost<i64>) -> (res: Option<i64>)
        requires
            self.wf(),
            deadlines_countable(self@.contract, self@.registry),
        ensures
            res == term_due(ctx_of(self@, date), st_of(self@), term_name@, opt_str_view(scope)),
    {
        proof {
            self.contract.terms.lemma_lookup_view(term_name@);
        }
        let term = match self.contract.terms.get(term_name) {
            Some(t) => t,
            None => return None,
        };
        let calendar_id = match self.selected_calendar_id_for_term(term_name) {
            Some(c) => c,
            None => return None,
        };
        let anchor = match &term.anchor {
            TermAnchor::Event(e) => self.first_event_date(e.as_str()),
            TermAnchor::BreachOf(target) => {
                let resolved = self.resolve_state_key(target.as_str(), scope);
                match self.breach_date_of(resolved.as_str()) {
                    Some(d) => Some(d),
                    None => self.breach_date_of(target.as_str()),
                }
            },
        };
        match anchor {
            Some(a) => Some(self.add_duration(a, &term.duration, calendar_id)),
            None => None,
        }
    }

    fn resolve_due_date(&self, due: Option<&DueDef>, scope: Option<&str>, Ghost(date): Ghost<i64>) -> (res: Option<i64>)
        requires
            self.wf(),
            deadlines_countable(self@.contract, self@.registry),
            due_countable(self@.registry, opt_view(due)),
        ensures
            res == due_date(ctx_of(self@, date), st_of(self@), opt_view(due), opt_str_view(scope)),
    {
        match due {
            None => None,
            Some(DueDef::TermRef(t)) => self.resolve_term_due_date(t.as_str(), scope, Ghost(date)),
            Some(DueDef::InlineDuration { duration, anchor }) => match self.first_event_date(anchor.as_str()) {
                Some(a) => Some(
                    self.add_duration(a, duration, self.calendar_registry.default_calendar_id.as_str()),
                ),
                None => None,
            },
        }
    }

    fn set_state(&mut self, key: &str, s: ObligationState)
        requires
            old(self).wf(),
        ensures
            final(self).wf(),
            final(self)@ == (RuntimeView { states: entry_insert(old(self)@.states, key@, s), ..old(self)@ }),
            final(self).contract == old(self).contract,
            final(self).calendar_registry == old(self).calendar_registry,
    {
        let ghost before = self.states;
        self.states.insert(owned(key), s);
        proof {
            NameMap::lemma_insert_view(before, self.states, key@, s);
        }
    }

    /// Evaluates one runtime item at `date` (see `eval_item`); tells whether
    /// anything changed.
    fn evaluate_runtime_item(
        &mut self,
        item_name: &str,
        condition: Option<&ConditionExpr>,
        due: Option<&DueDef>,
        trigger_breach_of: Option<&str>,
        remedy_scope: Option<&str>,
        date: i64,
    ) -> (changed: bool)
        requires
            old(self).wf(),
            deadlines_countable(old(self)@.contract, old(self)@.registry),
            due_countable(old(self)@.registry, opt_view(due)),
        ensures
            final(self).wf(),
            final(self).contract == old(self).contract,
            final(self).calendar_registry == old(self).calendar_registry,
            ({
                let it = RuntimeItem {
                    name: item_name@,
                    condition: opt_view(condition),
                    due: opt_view(due),
                    trigger: opt_str_view(trigger_breach_of),
                    scope: opt_str_view(remedy_scope),
                };
                let r = eval_item(ctx_of(old(self)@, date), st_of(old(self)@), it);
                &&& st_of(final(self)@) == r.0
                &&& changed == r.1
                &&& final(self)@ == (RuntimeView { states: r.0.states, breach: r.0.breach, ..old(self)@ })
            }),
    {
        let state = self.state_lookup(item_name);
        if state == ObligationState::Satisfied || state == ObligationState::Remedied {
            return false;
        }
        match trigger_breach_of {
            Some(t) => if !self.is_breached(t, remedy_scope) {
                return false;
            },
            None => {},
        }
        let mut changed = false;
        if state == ObligationState::Pending && self.is_condition_met(condition, remedy_scope, date) {
            self.set_state(item_name, ObligationState::Active);
            changed = true;
        }
        let state_after_activation = self.state_lookup(item_name);
        if state_after_activation == ObligationState::Active {
            match self.resolve_due_date(due, remedy_scope, Ghost(date)) {
                Some(due_day) => {
                    if date > due_day {
                        self.set_state(item_name, ObligationState::Breached);
                        let breach_day = add_calendar_days(due_day, 1);
                        proof {
                            self.breach_dates.lemma_view();
                        }
                        if !self.breach_dates.contains_key(item_name) {
                            let ghost before = self.breach_dates;
                            self.breach_dates.insert(owned(item_name), breach_day);
                            proof {
                                NameMap::lemma_insert_view(before, self.breach_dates, item_name@, breach_day);
                            }
                        }
                        changed = true;
                    }
                },
                None => {},
            }
        }
        changed
    }

    /// One pass over every runtime item at `date` (see `run_items`); tells
    /// whether anything changed.
    fn run_pass(&mut self, date: i64) -> (changed: bool)
        requires
            old(self).wf(),
            deadlines_countable(old(self)@.contract, old(self)@.registry),
        ensures
            final(self).wf(),
            final(self).contract == old(self).contract,
            final(self).calendar_registry == old(self).calendar_registry,
            ({
                let r = run_items(ctx_of(old(self)@, date), st_of(old(self)@), contract_items(old(self)@.contract));
                &&& final(self)@ == (RuntimeView { states: r.0.states, breach: r.0.breach, ..old(self)@ })
                &&& changed == r.1
            }),
    {
        let ghost rv0 = self@;
        let ghost ctx = ctx_of(rv0, date);
        let ghost st0 = st_of(rv0);
        let ghost c = rv0.contract;
        let ghost obs = obligations_items(c.obligations);
        let mut changed = false;
        let n = self.contract.obligations.len();
        let mut i: usize = 0;
        proof {
            self.contract.obligations.lemma_view();
            assert(obs.take(0) =~= Seq::<RuntimeItem>::empty());
        }
        while i < n
            invariant
                deadlines_countable(self@.contract, self@.registry),
                self.wf(),
                self.contract == old(self).contract,
                self.calendar_registry == old(self).calendar_registry,
                rv0 == old(self)@,
                ctx == ctx_of(rv0, date),
                st0 == st_of(rv0),
                c == rv0.contract,
                obs == obligations_items(c.obligations),
                self@ == (RuntimeView { states: self@.states, breach: self@.breach, ..rv0 }),
                n == self.contract.obligations.vals().len(),
                n == c.obligations.len(),
                i <= n,
                (st_of(self@), changed) == run_items(ctx, st0, obs.take(i as int)),
            decreases n - i,
        {
            let ob = self.contract.obligations.value_at(i).clone();
            proof {
                self.contract.obligations.lemma_view();
                assert(c.obligations[i as int] == (self.contract.obligations.keys()[i as int], ob@));
                assert(obs[i as int] == obligation_item(ob@));
                assert(obs.take(i + 1).drop_last() =~= obs.take(i as int));
                assert(obs.take(i + 1).last() == obs[i as int]);
            }
            let ch = self.evaluate_runtime_item(
                ob.name.as_str(),
                ob.condition.as_ref(),
                ob.due.as_ref(),
                None,
                None,
                date,
            );
            changed = changed || ch;
            i = i + 1;
        }
        let m = self.contract.remedies.len();
        let mut j: usize = 0;
        proof {
            assert(obs.take(n as int) =~= obs);
            assert(c.remedies.take(0) =~= Seq::<(Seq<char>, crate::types::RemedyView)>::empty());
            assert(obs + remedies_items(c.remedies.take(0)) =~= obs);
            self.contract.remedies.lemma_view();
        }
        while j < m
            invariant
                deadlines_countable(self@.contract, self@.registry),
                self.wf(),
                self.contract == old(self).contract,
                self.calendar_registry == old(self).calendar_registry,
                rv0 == old(self)@,
                ctx == ctx_of(rv0, date),
                st0 == st_of(rv0),
                c == rv0.contract,
                obs == obligations_items(c.obligations),
                self@ == (RuntimeView { states: self@.states, breach: self@.breach, ..rv0 }),
                m == self.contract.remedies.vals().len(),
                m == c.remedies.len(),
                j <= m,
                (st_of(self@), changed) == run_items(ctx, st0, obs + remedies_items(c.remedies.take(j as int))),
            decreases m - j,
        {
            let remedy = self.contract.remedies.value_at(j).clone();
            let ghost rv = remedy@;
            let ghost base = obs + remedies_items(c.remedies.take(j as int));
            let ghost ritems = remedy_items(rv);
            proof {
                self.contract.remedies.lemma_view();
                assert(c.remedies[j as int] == (self.contract.remedies.keys()[j as int], rv));
                assert((base + ritems.take(1)).drop_last() =~= base);
                assert((base + ritems.take(1)).last() == ritems[0]);
            }
            let ch = self.evaluate_runtime_item(
                remedy.name.as_str(),
                remedy.condition.as_ref(),
                remedy.due.as_ref(),
                Some(remedy.breach_target.as_str()),
                Some(remedy.name.as_str()),
                date,
            );
            changed = changed || ch;
            proof {
                assert forall|q: int| 0 <= q < rv.phases.len() implies due_countable(self@.registry, #[trigger] rv.phases[q].due) by {
                    assert(c.remedies[j as int].1.phases[q] == rv.phases[q]);
                }
            }
            changed = self.run_phase_items(&remedy, date, changed, Ghost(ctx), Ghost(st0), Ghost(base));
            proof {
                assert(c.remedies.take(j + 1).drop_last() =~= c.remedies.take(j as int));
                assert(c.remedies.take(j + 1).last().1 == rv);
                assert(remedies_items(c.remedies.take(j + 1)) == remedies_items(c.remedies.take(j as int)) + ritems);
                assert(base + ritems =~= obs + remedies_items(c.remedies.take(j + 1)));
            }
            j = j + 1;
        }
        proof {
            assert(c.remedies.take(m as int) =~= c.remedies);
        }
        changed
    }


    /// Evaluates the phases of `remedy` in order, after the items `base` and
    /// the remedy's own item.
    fn run_phase_items(
        &mut self,
        remedy: &crate::types::RemedyDef,
        date: i64,
        changed_in: bool,
        Ghost(ctx): Ghost<EvalCtx>,
        Ghost(st0): Ghost<EvalState>,
        Ghost(base): Ghost<Seq<RuntimeItem>>,
    ) -> (changed: bool)
        requires
            old(self).wf(),
            deadlines_countable(old(self)@.contract, old(self)@.registry),
            ctx == ctx_of(old(self)@, date),
            (st_of(old(self)@), changed_in) == run_items(ctx, st0, base + remedy_items(remedy@).take(1)),
            forall|k: int| 0 <= k < remedy@.phases.len() ==> due_countable(old(self)@.registry, #[trigger] remedy@.phases[k].due),
        ensures
            final(self).wf(),
            final(self).contract == old(self).contract,
            final(self).calendar_registry == old(self).calendar_registry,
            final(self)@ == (RuntimeView { states: final(self)@.states, breach: final(self)@.breach, ..old(self)@ }),
            (st_of(final(self)@), changed) == run_items(ctx, st0, base + remedy_items(remedy@)),
    {
        let ghost rv0 = self@;
        let ghost rv = remedy@;
        let ghost ritems = remedy_items(rv);
        let mut changed = changed_in;
        let mut k: usize = 0;
        while k < remedy.phases.len()
            invariant
                deadlines_countable(self@.contract, self@.registry),
                self.wf(),
                self.contract == old(self).contract,
                self.calendar_registry == old(self).calendar_registry,
                rv0 == old(self)@,
                ctx == ctx_of(rv0, date),
                rv == remedy@,
                ritems == remedy_items(rv),
                forall|q: int| 0 <= q < rv.phases.len() ==> due_countable(rv0.registry, #[trigger] rv.phases[q].due),
                self@ == (RuntimeView { states: self@.states, breach: self@.breach, ..rv0 }),
                k <= remedy.phases@.len(),
                (st_of(self@), changed) == run_items(ctx, st0, base + ritems.take(k + 1)),
            decreases remedy.phases@.len() - k,
        {
            let phase = &remedy.phases[k];
            let mut key = owned(remedy.name.as_str());
            push_char(&mut key, '.');
            append_str(&mut key, phase.name.as_str());
            let trigger: &str = match &phase.breach_target {
                Some(t) => t.as_str(),
                None => remedy.breach_target.as_str(),
            };
            proof {
                assert(ritems[k + 1] == phase_item(rv, phase@));
                assert((base + ritems.take(k + 2)).drop_last() =~= base + ritems.take(k + 1));
                assert((base + ritems.take(k + 2)).last() == ritems[k + 1]);
            }
            let ch = self.evaluate_runtime_item(
                key.as_str(),
                phase.condition.as_ref(),
                phase.due.as_ref(),
                Some(trigger),
                Some(remedy.name.as_str()),
                date,
            );
            changed = changed || ch;
            k = k + 1;
        }
        proof {
            assert(ritems.take(remedy.phases@.len() as int + 1) =~= ritems);
        }
        changed
    }

    /// Evaluates every obligation, remedy and phase at `date`, again and
    /// again until nothing changes; `date` becomes the current date. No state
    /// moves backwards: pending items may become active, active ones
    /// breached.
    pub fn evaluate_at(&mut self, date: i64)
        requires
            old(self).wf(),
            deadlines_countable(old(self)@.contract, old(self)@.registry),
        ensures
            final(self).wf(),
            final(self)@ == spec_evaluate_at(old(self)@, date),
            progressed(old(self)@.states, final(self)@.states),
            crate::semantics::moved_forward(old(self)@.states, final(self)@.states),
    {
        self.current_date = Some(date);
        let ghost rv0 = self@;
        let ghost ctx = ctx_of(rv0, date);
        let ghost items = contract_items(rv0.contract);
        let ghost target = settle(ctx, items, st_of(rv0));
        proof {
            lemma_settle(ctx, items, st_of(rv0));
        }
        loop
            invariant_except_break
                deadlines_countable(self@.contract, self@.registry),
                self.wf(),
                self@ == (RuntimeView { states: self@.states, breach: self@.breach, ..rv0 }),
                ctx == ctx_of(rv0, date),
                items == contract_items(rv0.contract),
                settle(ctx, items, st_of(self@)) == target,
                progressed(rv0.states, self@.states),
                progressed(self@.states, target.states),
            ensures
                self.wf(),
                self@ == (RuntimeView { states: self@.states, breach: self@.breach, ..rv0 }),
                st_of(self@) == target,
            decreases potential(items, self@.states),
        {
            let ghost before = self@;
            let ch = self.run_pass(date);
            proof {
                lemma_run_items(ctx, st_of(before), items);
                lemma_potential_le(items, before.states, self@.states);
                lemma_settle(ctx, items, st_of(self@));
                assert forall|k: Seq<char>| crate::semantics::rank(#[trigger] state_of(self@.states, k))
                    >= crate::semantics::rank(state_of(rv0.states, k)) by {
                    assert(crate::semantics::rank(state_of(self@.states, k)) >= crate::semantics::rank(state_of(before.states, k)));
                }
            }
            if !ch {
                break;
            }
        }
        proof {
            assert(self@ =~~= spec_evaluate_at(old(self)@, date));
            lemma_evaluate_keeps(old(self)@, date);
        }
    }

    /// Builds the runtime of `contract` on a registry that is already
    /// normalized: every item starts pending.
    #[verifier::rlimit(40)]
    fn build(contract: ContractDef, calendar_registry: CalendarRegistry) -> (res: Self)
        requires
            contract.wf(),
            calendar_registry.wf(),
        ensures
            res.wf(),
            res@ == initial_runtime(contract@, calendar_registry@),
    {
        let ghost c = contract@;
        let ghost obl_keys = entry_keys(c.obligations);
        let mut states: NameMap<ObligationState> = NameMap::new();
        proof {
            states.lemma_view();
            contract.obligations.lemma_view();
            assert(obl_keys.take(0) =~= Seq::<Seq<char>>::empty());
            assert(states@ =~= Seq::<(Seq<char>, ObligationState)>::empty());
        }
        let n = contract.obligations.len();
        let mut i: usize = 0;
        while i < n
            invariant
                contract.wf(),
                c == contract@,
                obl_keys == entry_keys(c.obligations),
                obl_keys == contract.obligations.keys(),
                n == obl_keys.len(),
                i <= n,
                states.wf(),
                states@ == pending_all(Seq::empty(), obl_keys.take(i as int)),
            decreases n - i,
        {
            let k = contract.obligations.key_at(i);
            add_pending(&mut states, k.as_str());
            proof {
                assert(obl_keys.take(i + 1).drop_last() =~= obl_keys.take(i as int));
            }
            i = i + 1;
        }
        proof {
            assert(obl_keys.take(n as int) =~= obl_keys);
            assert(c.remedies.take(0) =~= Seq::<(Seq<char>, crate::types::RemedyView)>::empty());
            assert(obl_keys + remedies_names(c.remedies.take(0)) =~= obl_keys);
            contract.remedies.lemma_view();
        }
        let m = contract.remedies.len();
        let mut j: usize = 0;
        while j < m
            invariant
                contract.wf(),
                c == contract@,
                m == contract.remedies.vals().len(),
                m == c.remedies.len(),
                j <= m,
                states.wf(),
                states@ == pending_all(Seq::empty(), obl_keys + remedies_names(c.remedies.take(j as int))),
            decreases m - j,
        {
            let remedy = contract.remedies.value_at(j);
            let ghost rv = remedy@;
            let ghost base = obl_keys + remedies_names(c.remedies.take(j as int));
            let ghost rnames = remedy_names(rv);
            proof {
                contract.remedies.lemma_view();
                assert(c.remedies[j as int] == (contract.remedies.keys()[j as int], rv));
                assert((base + rnames.take(1)).drop_last() =~= base);
            }
            add_pending(&mut states, remedy.name.as_str());
            add_phase_names(&mut states, remedy, Ghost(base));
            proof {
                assert(rnames.take(remedy.phases@.len() as int + 1) =~= rnames);
                assert(c.remedies.take(j + 1).drop_last() =~= c.remedies.take(j as int));
                assert(c.remedies.take(j + 1).last().1 == rv);
                assert(base + rnames =~= obl_keys + remedies_names(c.remedies.take(j + 1)));
            }
            j = j + 1;
        }
        proof {
            assert(c.remedies.take(m as int) =~= c.remedies);
        }
        let breach_dates: NameMap<i64> = NameMap::new();
        let res = ContractRuntime {
            contract,
            states,
            events: Vec::new(),
            current_date: None,
            calendar_registry,
            breach_dates,
        };
        proof {
            res.breach_dates.lemma_view();
            assert(res.breach_dates@ =~= Seq::<(Seq<char>, i64)>::empty());
            assert(views(res.events@) =~= Seq::<EventOccurrenceView>::empty());
            assert(res@ =~~= initial_runtime(contract@, calendar_registry@));
        }
        res
    }

    /// The runtime of `contract` on the default calendar registry. Every
    /// term's calendar, if it names one, must be the default calendar.
    pub fn new(contract: ContractDef) -> (res: Self)
        requires
            contract.wf(),
            first_unknown_calendar(contract@.terms, crate::types::default_registry_view()) is None,
        ensures
            res.wf(),
            res@ == initial_runtime(contract@, crate::types::default_registry_view()),
    {
        Self::build(contract, CalendarRegistry::phase2_default())
    }

    /// The runtime of `contract` on `registry` (normalized first). A term
    /// that names a calendar the registry lacks is refused with
    /// `Unknown calendar '<calendar>' referenced by term '<term>'`, for the
    /// first such term.
    pub fn with_calendar_registry(contract: ContractDef, registry: CalendarRegistry) -> (res: Result<Self, String>)
        requires
            contract.wf(),
            registry.wf(),
        ensures
            ({
                let reg = crate::types::normalized(registry@);
                match first_unknown_calendar(contract@.terms, reg) {
                    Some(i) => res is Err && res->Err_0@ == unknown_calendar_message(contract@.terms[i].1),
                    None => res is Ok && res->Ok_0.wf() && res->Ok_0@ == initial_runtime(contract@, reg),
                }
            }),
    {
        let ghost reg0 = registry@;
        let calendar_registry = registry.normalize();
        let ghost terms = contract@.terms;
        let ghost reg = calendar_registry@;
        let n = contract.terms.len();
        let mut i: usize = 0;
        proof {
            contract.terms.lemma_view();
            calendar_registry.calendars.lemma_view();
            assert(terms.take(0) =~= Seq::<(Seq<char>, crate::types::TermView)>::empty());
        }
        while i < n
            invariant
                terms == contract@.terms,
                reg == calendar_registry@,
                reg == crate::types::normalized(reg0),
                reg0 == registry@,
                n == terms.len(),
                n == contract.terms.vals().len(),
                i <= n,
                entry_keys(reg.calendars) == calendar_registry.calendars.keys(),
                first_unknown_calendar(terms.take(i as int), reg) is None,
            decreases n - i,
        {
            let term = contract.terms.value_at(i);
            proof {
                contract.terms.lemma_view();
                assert(terms[i as int].1 == term@);
                assert(terms.take(i + 1).drop_last() =~= terms.take(i as int));
            }
            match &term.calendar_ref {
                Some(cal) => {
                    if !calendar_registry.has_calendar(cal.as_str()) {
                        let mut msg = owned("Unknown calendar '");
                        append_str(&mut msg, cal.as_str());
                        append_str(&mut msg, "' referenced by term '");
                        append_str(&mut msg, term.name.as_str());
                        append_str(&mut msg, "'");
                        proof {
                            assert(term@.calendar_ref == Some(cal@));
                            assert(!calendar_ref_known(terms[i as int].1, reg));
                            lemma_first_unknown_prefix(terms, reg, i as int);
                            assert(msg@ == unknown_calendar_message(terms[i as int].1));
                            assert(reg == crate::types::normalized(registry@));
                            assert(first_unknown_calendar(contract@.terms, reg) == Some(i as int));
                        }
                        return Err(msg);
                    }
                },
                None => {},
            }
            i = i + 1;
        }
        proof {
            assert(terms.take(n as int) =~= terms);
        }
        Ok(Self::build(contract, calendar_registry))
    }

    /// Marks `name` satisfied when it is a runtime item, and forgets its
    /// breach date; does nothing otherwise.
    pub fn satisfy(&mut self, name: &str)
        requires
            old(self).wf(),
        ensures
            final(self).wf(),
            final(self)@ == spec_satisfy(old(self)@, name@),
    {
        proof {
            self.states.lemma_view();
        }
        if self.states.contains_key(name) {
            self.set_state(name, ObligationState::Satisfied);
            let ghost before = self.breach_dates;
            self.breach_dates.remove(name);
            proof {
                NameMap::lemma_remove_view(before, self.breach_dates, name@);
            }
        }
    }

    /// Records that event `name` occurred on `date` and evaluates at `date`.
    pub fn trigger_event(&mut self, name: &str, date: i64)
        requires
            old(self).wf(),
            deadlines_countable(old(self)@.contract, old(self)@.registry),
        ensures
            final(self).wf(),
            final(self)@ == spec_trigger(old(self)@, name@, date),
    {
        let ghost rv0 = self@;
        self.events.push(EventOccurrence { name: owned(name), date });
        proof {
            assert(views(self.events@) =~= rv0.events.push(EventOccurrenceView { name: name@, date }));
            assert(self@ =~~= RuntimeView { events: rv0.events.push(EventOccurrenceView { name: name@, date }), ..rv0 });
        }
        self.evaluate_at(date);
    }

    /// An independent copy of the runtime.
    pub fn fork(&self) -> (res: Self)
        requires
            self.wf(),
        ensures
            res.wf(),
            res@ == self@,
    {
        let events = clone_events(&self.events);
        let res = ContractRuntime {
            contract: self.contract.clone(),
            states: self.states.duplicate(),
            events,
            current_date: self.current_date,
            calendar_registry: self.calendar_registry.clone(),
            breach_dates: self.breach_dates.duplicate(),
        };
        proof {
            res.calendar_registry.calendars.lemma_view();
            self.calendar_registry.calendars.lemma_view();
            assert(res@ =~~= self@);
        }
        res
    }

    /// Triggers each hypothetical event in turn, then evaluates at
    /// `evaluate_at`, or at the latest event date when none is given.
    pub fn apply_hypothetical_events(&mut self, hypothetical_events: &[(String, i64)], evaluate_at: Option<i64>)
        requires
            old(self).wf(),
            deadlines_countable(old(self)@.contract, old(self)@.registry),
        ensures
            final(self).wf(),
            final(self)@ == spec_apply(old(self)@, event_pairs(hypothetical_events@), evaluate_at),
            evaluate_at is None && hypothetical_events@.len() > 0 ==> (final(self)@.current_date matches Some(d)
                && forall|j: int| 0 <= j < hypothetical_events@.len() ==> (#[trigger] hypothetical_events@[j]).1 <= d),
            evaluate_at matches Some(d) ==> final(self)@.current_date == Some(d),
    {
        let ghost rv0 = self@;
        let ghost pairs = event_pairs(hypothetical_events@);
        let mut latest_trigger_date: Option<i64> = None;
        let mut i: usize = 0;
        proof {
            assert(pairs.take(0) =~= Seq::<(Seq<char>, i64)>::empty());
        }
        while i < hypothetical_events.len()
            invariant
                deadlines_countable(self@.contract, self@.registry),
                self.wf(),
                pairs == event_pairs(hypothetical_events@),
                i <= hypothetical_events@.len(),
                self@ == trigger_all(rv0, pairs.take(i as int)),
                latest_trigger_date == latest_date(pairs.take(i as int)),
            decreases hypothetical_events@.len() - i,
        {
            let (event_name, date) = &hypothetical_events[i];
            proof {
                assert(pairs.take(i + 1).drop_last() =~= pairs.take(i as int));
                assert(pairs.take(i + 1).last() == (event_name@, *date));
            }
            self.trigger_event(event_name.as_str(), *date);
            latest_trigger_date = Some(
                match latest_trigger_date {
                    Some(prev) => if prev > *date { prev } else { *date },
                    None => *date,
                },
            );
            i = i + 1;
        }
        proof {
            assert(pairs.take(i as int) =~= pairs);
        }
        let when = match evaluate_at {
            Some(d) => Some(d),
            None => latest_trigger_date,
        };
        match when {
            Some(d) => self.evaluate_at(d),
            None => {},
        }
        proof {
            if evaluate_at is None && hypothetical_events@.len() > 0 {
                lemma_apply_at_latest(rv0, pairs);
                let d = self@.current_date->0;
                assert forall|j: int| 0 <= j < hypothetical_events@.len() implies (#[trigger] hypothetical_events@[j]).1 <= d by {
                    assert(pairs[j].1 == hypothetical_events@[j].1);
                }
            }
        }
    }

    /// A fork of the runtime with the hypothetical events applied (see
    /// `apply_hypothetical_events`); the runtime itself is left untouched.
    pub fn simulate_with(&self, hypothetical_events: &[(String, i64)], evaluate_at: Option<i64>) -> (res: Self)
        requires
            self.wf(),
            deadlines_countable(self@.contract, self@.registry),
        ensures
            res.wf(),
            res@ == spec_apply(self@, event_pairs(hypothetical_events@), evaluate_at),
            evaluate_at is None && hypothetical_events@.len() > 0 ==> (res@.current_date matches Some(d)
                && forall|j: int| 0 <= j < hypothetical_events@.len() ==> (#[trigger] hypothetical_events@[j]).1 <= d),
            evaluate_at matches Some(d) ==> res@.current_date == Some(d),
    {
        let mut simulated = self.fork();
        simulated.apply_hypothetical_events(hypothetical_events, evaluate_at);
        simulated
    }

    /// The due date of a runtime item (see `item_due`).
    #[verifier::loop_isolation(false)]
    fn resolve_due_date_for_item(&self, item_name: &str) -> (res: Option<i64>)
        requires
            self.wf(),
            deadlines_countable(self@.contract, self@.registry),
        ensures
            res == item_due(self@, item_name@),
    {
        proof {
            self.contract.obligations.lemma_lookup_view(item_name@);
            self.contract.remedies.lemma_lookup_view(item_name@);
        }
        match self.contract.obligations.get(item_name) {
            Some(o) => return self.resolve_due_date(o.due.as_ref(), None, Ghost(0)),
            None => {},
        }
        match self.contract.remedies.get(item_name) {
            Some(r) => return self.resolve_due_date(r.due.as_ref(), Some(r.name.as_str()), Ghost(0)),
            None => {},
        }
        let cs = crate::text::chars_of(item_name);
        let i = match dot_position(&cs) {
            Some(i) => i,
            None => return None,
        };
        proof {
            assert(is_first_dot(cs@, i as int));
        }
        let remedy_name = crate::text::text_range(&cs, 0, i);
        let phase_name = crate::text::text_range(&cs, i + 1, cs.len());
        proof {
            assert(remedy_name@ == item_name@.take(i as int));
            assert(phase_name@ == item_name@.skip(i + 1));
            self.contract.remedies.lemma_lookup_view(remedy_name@);
        }
        let r = match self.contract.remedies.get(remedy_name.as_str()) {
            Some(r) => r,
            None => return None,
        };
        let ghost ps = r@.phases;
        let mut k: usize = 0;
        while k < r.phases.len()
            invariant
                ps == r@.phases,
                k <= ps.len(),
                forall|j: int| 0 <= j < k ==> ps[j].name != phase_name@,
            decreases ps.len() - k,
        {
            if crate::text::text_eq(r.phases[k].name.as_str(), phase_name.as_str()) {
                proof {
                    assert(is_first_phase(ps, phase_name@, k as int));
                    let c = choose|c: int| is_first_phase(ps, phase_name@, c);
                    assert(c == k);
                }
                return self.resolve_due_date(r.phases[k].due.as_ref(), Some(r.name.as_str()), Ghost(0));
            }
            k = k + 1;
        }
        proof {
            assert forall|c: int| !is_first_phase(ps, phase_name@, c) by {}
        }
        None
    }

    /// Whether `name` is a runtime item.
    pub fn has_item(&self, name: &str) -> (b: bool)
        ensures
            b == entry_keys(self@.states).contains(name@),
    {
        proof {
            self.states.lemma_view();
        }
        self.states.contains_key(name)
    }

    /// The names of the runtime items, in the order of the state map.
    pub fn item_names(&self) -> (res: Vec<String>)
        ensures
            crate::text::texts(res@) == entry_keys(self@.states),
    {
        proof {
            self.states.lemma_view();
        }
        let res = self.states.key_list();
        proof {
            assert(crate::text::texts(res@) =~= res@.map_values(|s: String| s@));
        }
        res
    }

    /// The breach cascade of `breached_item`: its state key (resolved without
    /// a scope) and every direct effect of every item that a breach of it
    /// reaches, each once, in increasing order of source, target and reason.
    pub fn trace_breach_cascade(&self, breached_item: &str) -> (res: BreachCascade)
        ensures
            res.root@ == resolve_key(self@.states, breached_item@, None),
            res.root@ == breached_item@,
            links_sorted(views(res.links@)),
            forall|l: LinkView| views(res.links@).contains(l) <==> in_cascade(self@.states, self@.contract, res.root@, l),
    {
        trace_cascade(&self.contract, &self.states, breached_item)
    }

    /// A snapshot of every runtime item, in increasing order of name (see
    /// `snapshot_of`).
    pub fn query_state(&self) -> (res: Vec<ObligationSnapshot>)
        requires
            self.wf(),
            deadlines_countable(self@.contract, self@.registry),
        ensures
            crate::text::strictly_sorted(snapshot_names(res@)),
            forall|x: Seq<char>| snapshot_names(res@).contains(x) <==> entry_keys(self@.states).contains(x),
            forall|i: int| 0 <= i < res@.len() ==> (#[trigger] res@[i])@ == snapshot_of(self@, res@[i].name@),
    {
        let keys = self.states.key_list();
        let names = crate::text::sorted_set(&keys);
        proof {
            self.states.lemma_view();
        }
        let mut out: Vec<ObligationSnapshot> = Vec::new();
        let mut i: usize = 0;
        while i < names.len()
            invariant
                deadlines_countable(self@.contract, self@.registry),
                self.wf(),
                i <= names@.len(),
                out@.len() == i,
                forall|j: int| 0 <= j < i ==> (#[trigger] out@[j]).name@ == names@[j]@,
                forall|j: int| 0 <= j < i ==> (#[trigger] out@[j])@ == snapshot_of(self@, out@[j].name@),
            decreases names@.len() - i,
        {
            let name = &names[i];
            let state = self.state_lookup(name.as_str());
            let due_date = self.resolve_due_date_for_item(name.as_str());
            let days_overdue = match (self.current_date, due_date) {
                (Some(current), Some(due)) => {
                    if (state == ObligationState::Active || state == ObligationState::Breached) && current > due {
                        let diff: i128 = current as i128 - due as i128;
                        if diff > i64::MAX as i128 {
                            Some(i64::MAX)
                        } else {
                            Some(diff as i64)
                        }
                    } else {
                        None
                    }
                },
                _ => None,
            };
            out.push(ObligationSnapshot { name: name.clone(), state, due_date, days_overdue });
            i = i + 1;
        }
        proof {
            assert(snapshot_names(out@) =~= crate::text::texts(names@));
            assert(crate::text::texts(keys@) == entry_keys(self@.states));
        }
        out
    }
}

/// Records each phase key `remedy.phase` of a remedy as pending.
fn add_phase_names(states: &mut NameMap<ObligationState>, remedy: &crate::types::RemedyDef, Ghost(base): Ghost<Seq<Seq<char>>>)
    requires
        old(states).wf(),
        old(states)@ == pending_all(Seq::empty(), base + remedy_names(remedy@).take(1)),
    ensures
        final(states).wf(),
        final(states)@ == pending_all(Seq::empty(), base + remedy_names(remedy@)),
{
    let ghost rnames = remedy_names(remedy@);
    let mut k: usize = 0;
    while k < remedy.phases.len()
        invariant
            rnames == remedy_names(remedy@),
            k <= remedy.phases@.len(),
            states.wf(),
            states@ == pending_all(Seq::empty(), base + rnames.take(k + 1)),
        decreases remedy.phases@.len() - k,
    {
        let mut key = owned(remedy.name.as_str());
        push_char(&mut key, '.');
        append_str(&mut key, remedy.phases[k].name.as_str());
        proof {
            assert(rnames[k + 1] == scoped_name(remedy@.name, remedy.phases@[k as int]@.name));
            assert((base + rnames.take(k + 2)).drop_last() =~= base + rnames.take(k + 1));
        }
        add_pending(states, key.as_str());
        k = k + 1;
    }
    proof {
        assert(rnames.take(remedy.phases@.len() as int + 1) =~= rnames);
    }
}

/// Records `name` as pending unless it has a state already.
fn add_pending(states: &mut NameMap<ObligationState>, name: &str)
    requires
        old(states).wf(),
    ensures
        final(states).wf(),
        final(states)@ == (if entry_keys(old(states)@).contains(name@) {
            old(states)@
        } else {
            old(states)@.push((name@, ObligationState::Pending))
        }),
{
    proof {
        states.lemma_view();
    }
    if !states.contains_key(name) {
        let ghost before = *states;
        states.insert(owned(name), ObligationState::Pending);
        proof {
            NameMap::lemma_insert_view(before, *states, name@, ObligationState::Pending);
            crate::namemap::lemma_first_index(before.keys(), name@);
        }
    }
}

fn clone_events(v: &Vec<EventOccurrence>) -> (res: Vec<EventOccurrence>)
    ensures
        views(res@) == views(v@),
{
    let mut res: Vec<EventOccurrence> = Vec::new();
    let mut i: usize = 0;
    while i < v.len()
        invariant
            i <= v@.len(),
            res@.len() == i,
            forall|j: int| 0 <= j < i ==> (#[trigger] res@[j])@ == v@[j]@,
        decreases v@.len() - i,
    {
        res.push(v[i].clone());
        i = i + 1;
    }
    assert(views(res@) =~= views(v@));
    res
}

/// Whether the registry has the calendar a term names (if it names one).
pub open spec fn calendar_ref_known(t: TermView, reg: RegistryView) -> bool {
    match t.calendar_ref {
        Some(c) => entry_keys(reg.calendars).contains(c),
        None => true,
    }
}

/// Position of the first term naming a calendar the registry lacks.
pub open spec fn first_unknown_calendar(terms: Seq<(Seq<char>, TermView)>, reg: RegistryView) -> Option<int>
    decreases terms.len(),
{
    if terms.len() == 0 {
        None
    } else {
        match first_unknown_calendar(terms.drop_last(), reg) {
            Some(i) => Some(i),
            None => if calendar_ref_known(terms.last().1, reg) {
                None
            } else {
                Some(terms.len() - 1)
            },
        }
    }
}

pub proof fn lemma_first_unknown_prefix(terms: Seq<(Seq<char>, TermView)>, reg: RegistryView, i: int)
    requires
        0 <= i < terms.len(),
        first_unknown_calendar(terms.take(i), reg) is None,
        !calendar_ref_known(terms[i].1, reg),
    ensures
        first_unknown_calendar(terms, reg) == Some(i),
    decreases terms.len(),
{
    if i < terms.len() - 1 {
        assert(terms.drop_last().take(i) =~= terms.take(i));
        assert(terms.drop_last()[i] == terms[i]);
        lemma_first_unknown_prefix(terms.drop_last(), reg, i);
    } else {
        assert(terms.drop_last() =~= terms.take(i));
    }
}

/// The message refusing a term whose calendar is unknown.
pub open spec fn unknown_calendar_message(t: TermView) -> Seq<char> {
    "Unknown calendar '"@ + t.calendar_ref->0 + "' referenced by term '"@ + t.name + "'"@
}

/// Adds each name as pending unless it has a state already.
pub open spec fn pending_all(m: Seq<(Seq<char>, ObligationState)>, names: Seq<Seq<char>>) -> Seq<(Seq<char>, ObligationState)>
    decreases names.len(),
{
    if names.len() == 0 {
        m
    } else {
        let m1 = pending_all(m, names.drop_last());
        if entry_keys(m1).contains(names.last()) {
            m1
        } else {
            m1.push((names.last(), ObligationState::Pending))
        }
    }
}

/// The state keys of a remedy: its name, then `remedy.phase` for each phase.
pub open spec fn remedy_names(r: crate::types::RemedyView) -> Seq<Seq<char>> {
    seq![r.name] + r.phases.map_values(|p: crate::types::PhaseView| scoped_name(r.name, p.name))
}

pub open spec fn remedies_names(rs: Seq<(Seq<char>, crate::types::RemedyView)>) -> Seq<Seq<char>>
    decreases rs.len(),
{
    if rs.len() == 0 {
        Seq::empty()
    } else {
        remedies_names(rs.drop_last()) + remedy_names(rs.last().1)
    }
}

/// The states of a fresh runtime: every obligation (by key), remedy and
/// phase is pending.
pub open spec fn initial_states(c: ContractView) -> Seq<(Seq<char>, ObligationState)> {
    pending_all(Seq::empty(), entry_keys(c.obligations) + remedies_names(c.remedies))
}

/// A fresh runtime: all items pending, no events, no current date, no
/// breach dates.
pub open spec fn initial_runtime(c: ContractView, reg: RegistryView) -> RuntimeView {
    RuntimeView {
        contract: c,
        states: initial_states(c),
        events: Seq::empty(),
        current_date: None,
        registry: reg,
        breach: Seq::empty(),
    }
}

/// `days` calendar days after `date` (the last representable day when that
/// is past the end).
pub fn add_calendar_days(date: i64, days: u32) -> (res: i64)
    ensures
        res == add_days(date, days as int),
{
    let n = days as i64;
    if date > i64::MAX - n {
        i64::MAX
    } else {
        date + n
    }
}


/// Evaluation runs to a fixed point: evaluating again at the same date
/// changes nothing.
pub proof fn lemma_evaluate_idempotent(rv: RuntimeView, date: i64)
    ensures
        spec_evaluate_at(spec_evaluate_at(rv, date), date) == spec_evaluate_at(rv, date),
{
    let once = spec_evaluate_at(rv, date);
    assert(ctx_of(once, date) == ctx_of(rv, date));
    assert(contract_items(once.contract) == contract_items(rv.contract));
    crate::semantics::lemma_settle_idempotent(ctx_of(rv, date), contract_items(rv.contract), st_of(rv));
    assert(st_of(once) == settle(ctx_of(rv, date), contract_items(rv.contract), st_of(rv)));
}

/// The due date a query reports for phase `P` of remedy `R` (item key
/// `R.P`) is the deadline evaluation uses for that phase item, at any date:
/// the phase's deadline, its names read in the remedy's scope. (The remedy's
/// name holds no `.`, the phase is the first of its name, and no obligation
/// or remedy is itself named `R.P`.)
pub proof fn lemma_phase_due_is_evaluation_due(rv: RuntimeView, i: int, j: int, date: i64)
    requires
        0 <= i < rv.contract.remedies.len(),
        0 <= j < rv.contract.remedies[i].1.phases.len(),
        entry_lookup(rv.contract.remedies, rv.contract.remedies[i].1.name) == Some(rv.contract.remedies[i].1),
        !rv.contract.remedies[i].1.name.contains('.'),
        forall|q: int| 0 <= q < j ==> rv.contract.remedies[i].1.phases[q].name != rv.contract.remedies[i].1.phases[j].name,
        entry_lookup(rv.contract.obligations, scoped_name(rv.contract.remedies[i].1.name, rv.contract.remedies[i].1.phases[j].name)) is None,
        entry_lookup(rv.contract.remedies, scoped_name(rv.contract.remedies[i].1.name, rv.contract.remedies[i].1.phases[j].name)) is None,
    ensures
        ({
            let r = rv.contract.remedies[i].1;
            let it = phase_item(r, r.phases[j]);
            item_due(rv, it.name) == due_date(ctx_of(rv, date), st_of(rv), it.due, it.scope)
        }),
{
    let r = rv.contract.remedies[i].1;
    let p = r.phases[j];
    let key = scoped_name(r.name, p.name);
    let n = r.name.len() as int;
    assert(key[n] == '.');
    assert(forall|k: int| 0 <= k < n ==> key[k] == r.name[k]);
    assert forall|k: int| 0 <= k < n implies key[k] != '.' by {
        assert(key[k] == r.name[k]);
        if r.name[k] == '.' {
            assert(r.name.contains('.'));
        }
    }
    assert(is_first_dot(key, n));
    let fd = choose|k: int| is_first_dot(key, k);
    assert(fd == n) by {
        if fd < n {
            assert(key[fd] != '.');
        } else if fd > n {
            assert(key[n] != '.');
        }
    }
    assert(first_dot(key) == Some(n));
    assert(key.take(n) =~= r.name);
    assert(key.skip(n + 1) =~= p.name);
    assert(is_first_phase(r.phases, p.name, j));
    let fp = choose|k: int| is_first_phase(r.phases, p.name, k);
    assert(fp == j) by {
        if fp < j {
            assert(r.phases[fp].name != p.name);
        } else if fp > j {
            assert(r.phases[j].name != p.name);
        }
    }
    assert(first_phase(r.phases, p.name) == Some(p));
    assert(ctx_of(rv, 0).terms == ctx_of(rv, date).terms);
}

/// Evaluating at `date` keeps the contract, the events and the calendar
/// registry, records `date`, and moves each state only forward: Satisfied,
/// Remedied and Breached stay, Pending may become Active or Breached, Active
/// may become Breached. When every item has a recorded state (as in a
/// runtime just built) the recorded names stay the same.
pub proof fn lemma_evaluate_keeps(rv: RuntimeView, date: i64)
    ensures
        spec_evaluate_at(rv, date).contract == rv.contract,
        spec_evaluate_at(rv, date).events == rv.events,
        spec_evaluate_at(rv, date).registry == rv.registry,
        spec_evaluate_at(rv, date).current_date == Some(date),
        crate::semantics::moved_forward(rv.states, spec_evaluate_at(rv, date).states),
        crate::semantics::names_known(contract_items(rv.contract), rv.states)
            ==> entry_keys(spec_evaluate_at(rv, date).states) == entry_keys(rv.states),
{
    crate::semantics::lemma_settle_moves(ctx_of(rv, date), contract_items(rv.contract), st_of(rv));
}

/// Evaluation never moves a state backwards (`Pending` before `Active`
/// before `Satisfied` or `Breached`).
pub proof fn lemma_evaluate_progresses(rv: RuntimeView, date: i64)
    ensures
        progressed(rv.states, spec_evaluate_at(rv, date).states),
{
    lemma_settle(ctx_of(rv, date), contract_items(rv.contract), st_of(rv));
}

/// Recording events and evaluating never moves a state backwards.
pub proof fn lemma_apply_progresses(rv: RuntimeView, evs: Seq<(Seq<char>, i64)>, at: Option<i64>)
    ensures
        progressed(rv.states, spec_apply(rv, evs, at).states),
{
    lemma_trigger_all_progresses(rv, evs);
    let after = trigger_all(rv, evs);
    let when = match at {
        Some(d) => Some(d),
        None => latest_date(evs),
    };
    if let Some(d) = when {
        lemma_evaluate_progresses(after, d);
        assert forall|k: Seq<char>| crate::semantics::rank(#[trigger] state_of(spec_evaluate_at(after, d).states, k))
            >= crate::semantics::rank(state_of(rv.states, k)) by {
            assert(crate::semantics::rank(state_of(after.states, k)) >= crate::semantics::rank(state_of(rv.states, k)));
            assert(crate::semantics::rank(state_of(spec_evaluate_at(after, d).states, k)) >= crate::semantics::rank(state_of(after.states, k)));
        }
    }
}

proof fn lemma_trigger_all_progresses(rv: RuntimeView, evs: Seq<(Seq<char>, i64)>)
    ensures
        progressed(rv.states, trigger_all(rv, evs).states),
    decreases evs.len(),
{
    if evs.len() > 0 {
        let prev = trigger_all(rv, evs.drop_last());
        lemma_trigger_all_progresses(rv, evs.drop_last());
        let rec = RuntimeView { events: prev.events.push(EventOccurrenceView { name: evs.last().0, date: evs.last().1 }), ..prev };
        lemma_evaluate_progresses(rec, evs.last().1);
        assert forall|k: Seq<char>| crate::semantics::rank(#[trigger] state_of(trigger_all(rv, evs).states, k))
            >= crate::semantics::rank(state_of(rv.states, k)) by {
            assert(crate::semantics::rank(state_of(prev.states, k)) >= crate::semantics::rank(state_of(rv.states, k)));
        }
    }
}

} // verus!
