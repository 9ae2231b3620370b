//! The meaning of evaluating a contract at a date: how one runtime item moves
//! between states, what one pass over all items does, and the state reached
//! when passes stop changing anything.

use vstd::prelude::*;
use crate::calendar::{business_walk, clamp_day};
use crate::namemap::{entry_keys, entry_lookup, entry_insert, lemma_entry_insert_lookup, first_index, lemma_first_index};
use crate::types::{
    ObligationState, ConditionView, DueView, Duration, DurationUnit, TermView, TermAnchorView,
    EventOccurrenceView, RegistryView, CalendarView, ContractView, ObligationView, RemedyView,
    PhaseView,
};

verus! {

/// How far a state has progressed: pending items have not started, active
/// items are running, every other state is final for evaluation.
pub open spec fn rank(s: ObligationState) -> nat {
    match s {
        ObligationState::Pending => 0,
        ObligationState::Active => 1,
        _ => 2,
    }
}

/// The state recorded under `k`; an item with no record is pending.
pub open spec fn state_of(states: Seq<(Seq<char>, ObligationState)>, k: Seq<char>) -> ObligationState {
    match entry_lookup(states, k) {
        Some(s) => s,
        None => ObligationState::Pending,
    }
}

/// The key of phase `name` of remedy `scope`: `scope.name`.
pub open spec fn scoped_name(scope: Seq<char>, name: Seq<char>) -> Seq<char> {
    scope.push('.') + name
}

/// The state key a name refers to: the name itself when it has a state,
/// else the phase of that name in the remedy `scope` when that has a state,
/// else the name itself.
pub open spec fn resolve_key(
    states: Seq<(Seq<char>, ObligationState)>,
    name: Seq<char>,
    scope: Option<Seq<char>>,
) -> Seq<char> {
    if entry_keys(states).contains(name) {
        name
    } else {
        match scope {
            Some(s) => if entry_keys(states).contains(scoped_name(s, name)) {
                scoped_name(s, name)
            } else {
                name
            },
            None => name,
        }
    }
}

/// The earliest date on which an event named `name` occurred.
pub open spec fn event_first_date(events: Seq<EventOccurrenceView>, name: Seq<char>) -> Option<i64>
    decreases events.len(),
{
    if events.len() == 0 {
        None
    } else {
        let earlier = event_first_date(events.drop_last(), name);
        let e = events.last();
        if e.name == name {
            match earlier {
                Some(d) => if d <= e.date { Some(d) } else { Some(e.date) },
                None => Some(e.date),
            }
        } else {
            earlier
        }
    }
}

/// Whether condition `c` holds at `date`.
pub open spec fn cond_holds(
    states: Seq<(Seq<char>, ObligationState)>,
    events: Seq<EventOccurrenceView>,
    date: i64,
    c: ConditionView,
    scope: Option<Seq<char>>,
) -> bool
    decreases c,
{
    match c {
        ConditionView::After(e) => match event_first_date(events, e) {
            Some(d) => date >= d,
            None => false,
        },
        ConditionView::Before(e) => match event_first_date(events, e) {
            Some(d) => date < d,
            None => false,
        },
        ConditionView::Satisfied(n) => state_of(states, resolve_key(states, n, scope))
            == ObligationState::Satisfied,
        ConditionView::Occurred(e) => event_first_date(events, e) is Some,
        ConditionView::And(l, r) => cond_holds(states, events, date, *l, scope) && cond_holds(
            states,
            events,
            date,
            *r,
            scope,
        ),
        ConditionView::Or(l, r) => cond_holds(states, events, date, *l, scope) || cond_holds(
            states,
            events,
            date,
            *r,
            scope,
        ),
    }
}

/// An absent condition always holds.
pub open spec fn cond_met(
    states: Seq<(Seq<char>, ObligationState)>,
    events: Seq<EventOccurrenceView>,
    date: i64,
    c: Option<ConditionView>,
    scope: Option<Seq<char>>,
) -> bool {
    match c {
        Some(e) => cond_holds(states, events, date, e, scope),
        None => true,
    }
}

/// The calendar named `id`, falling back to the registry's default calendar.
pub open spec fn calendar_for(reg: RegistryView, id: Seq<char>) -> Option<CalendarView> {
    match entry_lookup(reg.calendars, id) {
        Some(c) => Some(c),
        None => entry_lookup(reg.calendars, reg.default_calendar_id),
    }
}

/// `n` calendar days after day `d`.
pub open spec fn add_days(d: i64, n: int) -> i64 {
    clamp_day(d + n)
}

/// The day a duration after `date` ends, business days counted on the
/// calendar `cal_id`.
pub open spec fn duration_end(reg: RegistryView, date: i64, dur: Duration, cal_id: Seq<char>) -> i64 {
    match dur.unit {
        DurationUnit::CalendarDays => add_days(date, dur.amount as int),
        DurationUnit::BusinessDays => match calendar_for(reg, cal_id) {
            Some(c) => if dur.amount == 0 {
                date
            } else {
                clamp_day(business_walk(c, date as int, dur.amount as nat))
            },
            None => add_days(date, dur.amount as int),
        },
    }
}

/// The calendar a term counts on: its own when the registry has it, none
/// when it names an unknown calendar, the default calendar when it names none.
pub open spec fn selected_calendar(
    terms: Seq<(Seq<char>, TermView)>,
    reg: RegistryView,
    term_name: Seq<char>,
) -> Option<Seq<char>> {
    match entry_lookup(terms, term_name) {
        None => None,
        Some(t) => match t.calendar_ref {
            Some(c) => if entry_keys(reg.calendars).contains(c) {
                Some(c)
            } else {
                None
            },
            None => Some(reg.default_calendar_id),
        },
    }
}

/// Business days can be counted on calendar `id`: the calendar it selects
/// has a business weekday (with no calendar, calendar days are counted).
pub open spec fn countable_on(reg: RegistryView, id: Seq<char>) -> bool {
    match calendar_for(reg, id) {
        Some(c) => c.business_weekdays.len() > 0,
        None => true,
    }
}

/// A duration counted on calendar `id` ends: it is not a positive number of
/// business days on a calendar without a business weekday.
pub open spec fn duration_countable(reg: RegistryView, d: Duration, id: Seq<char>) -> bool {
    d.unit == DurationUnit::BusinessDays && d.amount > 0 ==> countable_on(reg, id)
}

/// An inline deadline, counted on the default calendar, ends.
pub open spec fn due_countable(reg: RegistryView, due: Option<DueView>) -> bool {
    match due {
        Some(DueView::InlineDuration { duration, anchor }) => duration_countable(reg, duration, reg.default_calendar_id),
        _ => true,
    }
}

/// Every deadline of the contract can be counted: each term on the
/// calendar it selects, each inline deadline of an obligation, remedy or
/// phase on the default calendar. Only a positive number of business days
/// on a calendar without a business weekday cannot be counted.
pub open spec fn deadlines_countable(c: ContractView, reg: RegistryView) -> bool {
    &&& forall|n: Seq<char>| #[trigger] entry_lookup(c.terms, n) matches Some(t) ==> match selected_calendar(c.terms, reg, n) {
        Some(id) => duration_countable(reg, t.duration, id),
        None => true,
    }
    &&& forall|i: int| 0 <= i < c.obligations.len() ==> due_countable(reg, (#[trigger] c.obligations[i]).1.due)
    &&& forall|i: int| 0 <= i < c.remedies.len() ==> due_countable(reg, (#[trigger] c.remedies[i]).1.due)
    &&& forall|i: int, j: int| 0 <= i < c.remedies.len() && 0 <= j < c.remedies[i].1.phases.len()
        ==> due_countable(reg, (#[trigger] c.remedies[i].1.phases[j]).due)
}

/// What an evaluation reads and does not change.
pub struct EvalCtx {
    pub terms: Seq<(Seq<char>, TermView)>,
    pub events: Seq<EventOccurrenceView>,
    pub registry: RegistryView,
    pub date: i64,
}

/// What an evaluation changes: the states and the recorded breach dates.
pub struct EvalState {
    pub states: Seq<(Seq<char>, ObligationState)>,
    pub breach: Seq<(Seq<char>, i64)>,
}

/// The breach date that anchors a `breach_of(target)` term.
pub open spec fn breach_anchor(st: EvalState, target: Seq<char>, scope: Option<Seq<char>>) -> Option<i64> {
    match entry_lookup(st.breach, resolve_key(st.states, target, scope)) {
        Some(d) => Some(d),
        None => entry_lookup(st.breach, target),
    }
}

/// The due date given by term `term_name`.
pub open spec fn term_due(ctx: EvalCtx, st: EvalState, term_name: Seq<char>, scope: Option<Seq<char>>) -> Option<i64> {
    match entry_lookup(ctx.terms, term_name) {
        None => None,
        Some(t) => match selected_calendar(ctx.terms, ctx.registry, term_name) {
            None => None,
            Some(cal) => {
                let anchor = match t.anchor {
                    TermAnchorView::Event(e) => event_first_date(ctx.events, e),
                    TermAnchorView::BreachOf(target) => breach_anchor(st, target, scope),
                };
                match anchor {
                    Some(a) => Some(duration_end(ctx.registry, a, t.duration, cal)),
                    None => None,
                }
            },
        },
    }
}

/// The due date of an item with deadline `due`.
pub open spec fn due_date(ctx: EvalCtx, st: EvalState, due: Option<DueView>, scope: Option<Seq<char>>) -> Option<i64> {
    match due {
        None => None,
        Some(DueView::TermRef(t)) => term_due(ctx, st, t, scope),
        Some(DueView::InlineDuration { duration, anchor }) => match event_first_date(ctx.events, anchor) {
            Some(a) => Some(duration_end(ctx.registry, a, duration, ctx.registry.default_calendar_id)),
            None => None,
        },
    }
}

/// One runtime item: an obligation, a remedy or a remedy phase.
pub struct RuntimeItem {
    pub name: Seq<char>,
    pub condition: Option<ConditionView>,
    pub due: Option<DueView>,
    /// The item whose breach the item waits for.
    pub trigger: Option<Seq<char>>,
    /// The remedy in whose scope names are resolved.
    pub scope: Option<Seq<char>>,
}

/// Evaluates one item: a pending item whose trigger (if any) is breached
/// becomes active when its condition holds; an active item becomes breached
/// once the date is past its due date, and the day after the due date is
/// recorded as its breach date unless one is recorded already. The flag
/// tells whether anything changed.
pub open spec fn eval_item(ctx: EvalCtx, st: EvalState, it: RuntimeItem) -> (EvalState, bool) {
    let s0 = state_of(st.states, it.name);
    if s0 == ObligationState::Satisfied || s0 == ObligationState::Remedied {
        (st, false)
    } else if it.trigger is Some && state_of(st.states, resolve_key(st.states, it.trigger->0, it.scope))
        != ObligationState::Breached {
        (st, false)
    } else {
        let activate = s0 == ObligationState::Pending && cond_met(
            st.states,
            ctx.events,
            ctx.date,
            it.condition,
            it.scope,
        );
        let st1 = if activate {
            EvalState {
                states: entry_insert(st.states, it.name, ObligationState::Active),
                breach: st.breach,
            }
        } else {
            st
        };
        let due = due_date(ctx, st1, it.due, it.scope);
        if state_of(st1.states, it.name) == ObligationState::Active && due is Some && ctx.date > due->0 {
            let breach = if entry_keys(st1.breach).contains(it.name) {
                st1.breach
            } else {
                entry_insert(st1.breach, it.name, add_days(due->0, 1))
            };
            (EvalState { states: entry_insert(st1.states, it.name, ObligationState::Breached), breach }, true)
        } else {
            (st1, activate)
        }
    }
}

/// Evaluates the items in order; the flag tells whether any item changed.
pub open spec fn run_items(ctx: EvalCtx, st: EvalState, items: Seq<RuntimeItem>) -> (EvalState, bool)
    decreases items.len(),
{
    if items.len() == 0 {
        (st, false)
    } else {
        let before = run_items(ctx, st, items.drop_last());
        let after = eval_item(ctx, before.0, items.last());
        (after.0, before.1 || after.1)
    }
}

pub open spec fn obligation_item(o: ObligationView) -> RuntimeItem {
    RuntimeItem { name: o.name, condition: o.condition, due: o.due, trigger: None, scope: None }
}

pub open spec fn phase_item(r: RemedyView, p: PhaseView) -> RuntimeItem {
    RuntimeItem {
        name: scoped_name(r.name, p.name),
        condition: p.condition,
        due: p.due,
        trigger: Some(
            match p.breach_target {
                Some(t) => t,
                None => r.breach_target,
            },
        ),
        scope: Some(r.name),
    }
}

/// A remedy's own item followed by the items of its phases.
pub open spec fn remedy_items(r: RemedyView) -> Seq<RuntimeItem> {
    seq![
        RuntimeItem {
            name: r.name,
            condition: r.condition,
            due: r.due,
            trigger: Some(r.breach_target),
            scope: Some(r.name),
        },
    ] + r.phases.map_values(|p: PhaseView| phase_item(r, p))
}

pub open spec fn remedies_items(rs: Seq<(Seq<char>, RemedyView)>) -> Seq<RuntimeItem>
    decreases rs.len(),
{
    if rs.len() == 0 {
        Seq::empty()
    } else {
        remedies_items(rs.drop_last()) + remedy_items(rs.last().1)
    }
}

pub open spec fn obligations_items(os: Seq<(Seq<char>, ObligationView)>) -> Seq<RuntimeItem> {
    os.map_values(|e: (Seq<char>, ObligationView)| obligation_item(e.1))
}

/// Every runtime item of a contract, in evaluation order: the obligations,
/// then each remedy followed by its phases.
pub open spec fn contract_items(c: ContractView) -> Seq<RuntimeItem> {
    obligations_items(c.obligations) + remedies_items(c.remedies)
}

/// How much progress is still possible for the items.
pub open spec fn potential(items: Seq<RuntimeItem>, states: Seq<(Seq<char>, ObligationState)>) -> nat
    decreases items.len(),
{
    if items.len() == 0 {
        0
    } else {
        potential(items.drop_last(), states) + (2 - rank(state_of(states, items.last().name))) as nat
    }
}

/// No state moves backwards.
pub open spec fn progressed(a: Seq<(Seq<char>, ObligationState)>, b: Seq<(Seq<char>, ObligationState)>) -> bool {
    forall|k: Seq<char>| rank(#[trigger] state_of(b, k)) >= rank(state_of(a, k))
}

pub proof fn lemma_state_of_insert(
    m: Seq<(Seq<char>, ObligationState)>,
    k: Seq<char>,
    v: ObligationState,
    n: Seq<char>,
)
    ensures
        state_of(entry_insert(m, k, v), n) == if n == k { v } else { state_of(m, n) },
{
    lemma_entry_insert_lookup(m, k, v, n);
}

pub proof fn lemma_eval_item(ctx: EvalCtx, st: EvalState, it: RuntimeItem)
    ensures
        progressed(st.states, eval_item(ctx, st, it).0.states),
        !eval_item(ctx, st, it).1 ==> eval_item(ctx, st, it).0 == st,
        eval_item(ctx, st, it).1 ==> rank(state_of(eval_item(ctx, st, it).0.states, it.name)) > rank(
            state_of(st.states, it.name),
        ),
{
    let r = eval_item(ctx, st, it);
    let s0 = state_of(st.states, it.name);
    assert forall|k: Seq<char>| rank(#[trigger] state_of(r.0.states, k)) >= rank(state_of(st.states, k)) by {
        lemma_state_of_insert(st.states, it.name, ObligationState::Active, k);
        lemma_state_of_insert(st.states, it.name, ObligationState::Active, it.name);
        lemma_state_of_insert(
            entry_insert(st.states, it.name, ObligationState::Active),
            it.name,
            ObligationState::Breached,
            k,
        );
        lemma_state_of_insert(st.states, it.name, ObligationState::Breached, k);
    }
    lemma_state_of_insert(st.states, it.name, ObligationState::Active, it.name);
    lemma_state_of_insert(
        entry_insert(st.states, it.name, ObligationState::Active),
        it.name,
        ObligationState::Breached,
        it.name,
    );
    lemma_state_of_insert(st.states, it.name, ObligationState::Breached, it.name);
}

pub proof fn lemma_run_items(ctx: EvalCtx, st: EvalState, items: Seq<RuntimeItem>)
    ensures
        progressed(st.states, run_items(ctx, st, items).0.states),
        !run_items(ctx, st, items).1 ==> run_items(ctx, st, items).0 == st,
        run_items(ctx, st, items).1 ==> exists|i: int|
            0 <= i < items.len() && rank(state_of(run_items(ctx, st, items).0.states, #[trigger] items[i].name))
                > rank(state_of(st.states, items[i].name)),
    decreases items.len(),
{
    if items.len() > 0 {
        let d = items.drop_last();
        lemma_run_items(ctx, st, d);
        let before = run_items(ctx, st, d);
        lemma_eval_item(ctx, before.0, items.last());
        let after = eval_item(ctx, before.0, items.last());
        assert(progressed(st.states, after.0.states)) by {
            assert forall|k: Seq<char>| rank(#[trigger] state_of(after.0.states, k)) >= rank(state_of(st.states, k)) by {
                assert(rank(state_of(before.0.states, k)) >= rank(state_of(st.states, k)));
                assert(rank(state_of(after.0.states, k)) >= rank(state_of(before.0.states, k)));
            }
        }
        if after.1 {
            let n = items.last().name;
            assert(rank(state_of(before.0.states, n)) >= rank(state_of(st.states, n)));
            assert(items[items.len() - 1].name == n);
        } else if before.1 {
            let i = choose|i: int|
                0 <= i < d.len() && rank(state_of(before.0.states, #[trigger] d[i].name)) > rank(
                    state_of(st.states, d[i].name),
                );
            assert(items[i] == d[i]);
            assert(rank(state_of(after.0.states, items[i].name)) >= rank(state_of(before.0.states, items[i].name)));
        }
    }
}

pub proof fn lemma_potential_le(items: Seq<RuntimeItem>, a: Seq<(Seq<char>, ObligationState)>, b: Seq<(Seq<char>, ObligationState)>)
    requires
        progressed(a, b),
    ensures
        potential(items, b) <= potential(items, a),
        (exists|i: int| 0 <= i < items.len() && rank(state_of(b, #[trigger] items[i].name)) > rank(state_of(a, items[i].name)))
            ==> potential(items, b) < potential(items, a),
    decreases items.len(),
{
    if items.len() > 0 {
        let d = items.drop_last();
        lemma_potential_le(d, a, b);
        let n = items.last().name;
        assert(rank(state_of(b, n)) >= rank(state_of(a, n)));
        if exists|i: int| 0 <= i < items.len() && rank(state_of(b, #[trigger] items[i].name)) > rank(state_of(a, items[i].name)) {
            let i = choose|i: int| 0 <= i < items.len() && rank(state_of(b, #[trigger] items[i].name)) > rank(state_of(a, items[i].name));
            if i < items.len() - 1 {
                assert(d[i] == items[i]);
            }
        }
    }
}

/// Passes over the items until a pass changes nothing; the state after that
/// pass.
pub open spec fn settle(ctx: EvalCtx, items: Seq<RuntimeItem>, st: EvalState) -> EvalState
    decreases potential(items, st.states),
{
    let pass = run_items(ctx, st, items);
    if pass.1 {
        proof {
            lemma_run_items(ctx, st, items);
            lemma_potential_le(items, st.states, pass.0.states);
        }
        settle(ctx, items, pass.0)
    } else {
        pass.0
    }
}

pub proof fn lemma_settle(ctx: EvalCtx, items: Seq<RuntimeItem>, st: EvalState)
    ensures
        progressed(st.states, settle(ctx, items, st).states),
        !run_items(ctx, settle(ctx, items, st), items).1,
    decreases potential(items, st.states),
{
    let pass = run_items(ctx, st, items);
    lemma_run_items(ctx, st, items);
    if pass.1 {
        lemma_potential_le(items, st.states, pass.0.states);
        lemma_settle(ctx, items, pass.0);
        let fin = settle(ctx, items, pass.0);
        assert forall|k: Seq<char>| rank(#[trigger] state_of(fin.states, k)) >= rank(state_of(st.states, k)) by {
            assert(rank(state_of(pass.0.states, k)) >= rank(state_of(st.states, k)));
        }
    }
}


/// Settling is a fixed point: settling a settled state changes nothing.
pub proof fn lemma_settle_idempotent(ctx: EvalCtx, items: Seq<RuntimeItem>, st: EvalState)
    ensures
        settle(ctx, items, settle(ctx, items, st)) == settle(ctx, items, st),
{
    let fin = settle(ctx, items, st);
    lemma_settle(ctx, items, st);
    lemma_run_items(ctx, fin, items);
}

/// The moves a state can make in an evaluation: Satisfied, Remedied and
/// Breached stay; Pending may become Active or Breached; Active may become
/// Breached.
pub open spec fn step_ok(a: ObligationState, b: ObligationState) -> bool {
    ||| a == b
    ||| a == ObligationState::Pending && (b == ObligationState::Active || b == ObligationState::Breached)
    ||| a == ObligationState::Active && b == ObligationState::Breached
}

/// Every state of `b` is one that the state of `a` under the same name may
/// move to.
pub open spec fn moved_forward(a: Seq<(Seq<char>, ObligationState)>, b: Seq<(Seq<char>, ObligationState)>) -> bool {
    forall|k: Seq<char>| step_ok(state_of(a, k), #[trigger] state_of(b, k))
}

/// Every item has a recorded state.
pub open spec fn names_known(items: Seq<RuntimeItem>, states: Seq<(Seq<char>, ObligationState)>) -> bool {
    forall|i: int| 0 <= i < items.len() ==> entry_keys(states).contains(#[trigger] items[i].name)
}

proof fn lemma_insert_keys<T>(m: Seq<(Seq<char>, T)>, k: Seq<char>, v: T)
    requires
        entry_keys(m).contains(k),
    ensures
        entry_keys(entry_insert(m, k, v)) == entry_keys(m),
{
    lemma_first_index(entry_keys(m), k);
    let i = first_index(entry_keys(m), k);
    assert(entry_keys(m.update(i, (k, v))) =~= entry_keys(m));
}

proof fn lemma_eval_item_moves(ctx: EvalCtx, st: EvalState, it: RuntimeItem)
    ensures
        moved_forward(st.states, eval_item(ctx, st, it).0.states),
        entry_keys(st.states).contains(it.name) ==> entry_keys(eval_item(ctx, st, it).0.states) == entry_keys(st.states),
{
    let r = eval_item(ctx, st, it);
    let a1 = entry_insert(st.states, it.name, ObligationState::Active);
    assert forall|k: Seq<char>| step_ok(state_of(st.states, k), #[trigger] state_of(r.0.states, k)) by {
        lemma_state_of_insert(st.states, it.name, ObligationState::Active, k);
        lemma_state_of_insert(st.states, it.name, ObligationState::Active, it.name);
        lemma_state_of_insert(a1, it.name, ObligationState::Breached, k);
        lemma_state_of_insert(st.states, it.name, ObligationState::Breached, k);
    }
    if entry_keys(st.states).contains(it.name) {
        lemma_insert_keys(st.states, it.name, ObligationState::Active);
        lemma_insert_keys(a1, it.name, ObligationState::Breached);
        lemma_insert_keys(st.states, it.name, ObligationState::Breached);
    }
}

proof fn lemma_run_items_moves(ctx: EvalCtx, st: EvalState, items: Seq<RuntimeItem>)
    ensures
        moved_forward(st.states, run_items(ctx, st, items).0.states),
        names_known(items, st.states) ==> entry_keys(run_items(ctx, st, items).0.states) == entry_keys(st.states),
    decreases items.len(),
{
    if items.len() > 0 {
        let d = items.drop_last();
        if names_known(items, st.states) {
            assert forall|i: int| 0 <= i < d.len() implies entry_keys(st.states).contains(#[trigger] d[i].name) by {
                assert(d[i] == items[i]);
            }
        }
        lemma_run_items_moves(ctx, st, d);
        let before = run_items(ctx, st, d);
        lemma_eval_item_moves(ctx, before.0, items.last());
        let after = eval_item(ctx, before.0, items.last());
        assert forall|k: Seq<char>| step_ok(state_of(st.states, k), #[trigger] state_of(after.0.states, k)) by {
            assert(step_ok(state_of(st.states, k), state_of(before.0.states, k)));
            assert(step_ok(state_of(before.0.states, k), state_of(after.0.states, k)));
        }
        if names_known(items, st.states) {
            assert(entry_keys(st.states).contains(items[items.len() - 1].name));
        }
    }
}

/// Settling moves each state only forward (Pending to Active to Breached;
/// Satisfied, Remedied and Breached stay) and, when every item has a
/// recorded state, keeps the recorded names.
pub proof fn lemma_settle_moves(ctx: EvalCtx, items: Seq<RuntimeItem>, st: EvalState)
    ensures
        moved_forward(st.states, settle(ctx, items, st).states),
        names_known(items, st.states) ==> entry_keys(settle(ctx, items, st).states) == entry_keys(st.states),
    decreases potential(items, st.states),
{
    let pass = run_items(ctx, st, items);
    lemma_run_items(ctx, st, items);
    lemma_run_items_moves(ctx, st, items);
    if pass.1 {
        lemma_potential_le(items, st.states, pass.0.states);
        if names_known(items, st.states) {
            assert forall|i: int| 0 <= i < items.len() implies entry_keys(pass.0.states).contains(#[trigger] items[i].name) by {
                assert(entry_keys(st.states).contains(items[i].name));
            }
        }
        lemma_settle_moves(ctx, items, pass.0);
        let fin = settle(ctx, items, pass.0);
        assert forall|k: Seq<char>| step_ok(state_of(st.states, k), #[trigger] state_of(fin.states, k)) by {
            assert(step_ok(state_of(st.states, k), state_of(pass.0.states, k)));
            assert(step_ok(state_of(pass.0.states, k), state_of(fin.states, k)));
        }
    }
}

} // verus!
