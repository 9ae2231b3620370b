//! Breach cascades: which runtime items a breach reaches, directly or
//! through other items.

use vstd::prelude::*;
use crate::namemap::{NameMap, entry_keys};
use crate::semantics::{resolve_key, scoped_name};
use crate::text::{owned, append_str, push_char, text_eq, text_lt, seq_lt, lemma_seq_lt_total,
    lemma_seq_lt_transitive, lemma_seq_lt_irreflexive, lemma_seq_lt_asymmetric};
use crate::types::{
    ObligationState, ContractDef, ContractView, ConditionExpr, ConditionView, DueDef, DueView, ObligationView,
    PhaseDef, PhaseView, RemedyDef, RemedyView, TermAnchor, TermAnchorView, TermView, views,
};

verus! {

/// One effect of a breach: `to` is affected by `from`, for `reason`.
#[derive(Debug, Clone, PartialEq, Eq)]
pub struct CascadeLink {
    pub from: String,
    pub to: String,
    pub reason: String,
}

pub struct LinkView {
    pub from: Seq<char>,
    pub to: Seq<char>,
    pub reason: Seq<char>,
}

impl View for CascadeLink {
    type V = LinkView;

    open spec fn view(&self) -> LinkView {
        LinkView { from: self.from@, to: self.to@, reason: self.reason@ }
    }
}

/// The effects of a breach of `root`.
#[derive(Debug, Clone, PartialEq, Eq)]
pub struct BreachCascade {
    pub root: String,
    pub links: Vec<CascadeLink>,
}

pub open spec fn link(from: Seq<char>, to: Seq<char>, reason: Seq<char>) -> LinkView {
    LinkView { from, to, reason }
}

/// `target` (resolved in `scope`) is `source`.
pub open spec fn dep(states: Seq<(Seq<char>, ObligationState)>, source: Seq<char>, target: Seq<char>, scope: Option<Seq<char>>) -> bool {
    source == resolve_key(states, target, scope)
}

/// Condition `c` asks whether `source` is satisfied.
pub open spec fn cond_depends(
    states: Seq<(Seq<char>, ObligationState)>,
    c: ConditionView,
    source: Seq<char>,
    scope: Option<Seq<char>>,
) -> bool
    decreases c,
{
    match c {
        ConditionView::Satisfied(t) => dep(states, source, t, scope),
        ConditionView::And(l, r) => cond_depends(states, *l, source, scope) || cond_depends(states, *r, source, scope),
        ConditionView::Or(l, r) => cond_depends(states, *l, source, scope) || cond_depends(states, *r, source, scope),
        _ => false,
    }
}

/// The targets of the `satisfied(...)` atoms of a condition, wherever they
/// stand in it.
pub open spec fn satisfied_atoms(c: ConditionView) -> Seq<Seq<char>>
    decreases c,
{
    match c {
        ConditionView::Satisfied(t) => seq![t],
        ConditionView::And(l, r) => satisfied_atoms(*l) + satisfied_atoms(*r),
        ConditionView::Or(l, r) => satisfied_atoms(*l) + satisfied_atoms(*r),
        _ => Seq::empty(),
    }
}

/// One of the `satisfied(...)` atoms of `c` names `source`.
pub open spec fn atom_names(
    states: Seq<(Seq<char>, ObligationState)>,
    c: ConditionView,
    source: Seq<char>,
    scope: Option<Seq<char>>,
) -> bool {
    exists|i: int| 0 <= i < satisfied_atoms(c).len() && dep(states, source, #[trigger] satisfied_atoms(c)[i], scope)
}

/// A condition depends on a breach of `source` exactly when one of its
/// `satisfied(...)` atoms, under `and` or `or` alike, names `source`.
pub proof fn lemma_cond_depends_atoms(
    states: Seq<(Seq<char>, ObligationState)>,
    c: ConditionView,
    source: Seq<char>,
    scope: Option<Seq<char>>,
)
    ensures
        cond_depends(states, c, source, scope) == atom_names(states, c, source, scope),
    decreases c,
{
    match c {
        ConditionView::Satisfied(t) => {
            assert(satisfied_atoms(c) =~= seq![t]);
            if cond_depends(states, c, source, scope) {
                assert(dep(states, source, satisfied_atoms(c)[0], scope));
                assert(atom_names(states, c, source, scope));
            }
            if atom_names(states, c, source, scope) {
                let i = choose|i: int| 0 <= i < satisfied_atoms(c).len() && dep(states, source, #[trigger] satisfied_atoms(c)[i], scope);
                assert(i == 0);
                assert(cond_depends(states, c, source, scope));
            }
            assert(cond_depends(states, c, source, scope) == atom_names(states, c, source, scope));
        },
        ConditionView::And(l, r) => {
            lemma_cond_depends_atoms(states, *l, source, scope);
            lemma_cond_depends_atoms(states, *r, source, scope);
            lemma_atoms_concat(states, *l, *r, source, scope);
            assert(satisfied_atoms(c) == satisfied_atoms(*l) + satisfied_atoms(*r));
            assert(cond_depends(states, c, source, scope) == atom_names(states, c, source, scope));
        },
        ConditionView::Or(l, r) => {
            lemma_cond_depends_atoms(states, *l, source, scope);
            lemma_cond_depends_atoms(states, *r, source, scope);
            lemma_atoms_concat(states, *l, *r, source, scope);
            assert(satisfied_atoms(c) == satisfied_atoms(*l) + satisfied_atoms(*r));
            assert(cond_depends(states, c, source, scope) == atom_names(states, c, source, scope));
        },
        _ => {
            assert(satisfied_atoms(c).len() == 0);
            assert(cond_depends(states, c, source, scope) == atom_names(states, c, source, scope));
        },
    }
}

proof fn lemma_atoms_concat(
    states: Seq<(Seq<char>, ObligationState)>,
    l: ConditionView,
    r: ConditionView,
    source: Seq<char>,
    scope: Option<Seq<char>>,
)
    ensures
        (exists|i: int| 0 <= i < (satisfied_atoms(l) + satisfied_atoms(r)).len()
            && dep(states, source, #[trigger] (satisfied_atoms(l) + satisfied_atoms(r))[i], scope))
        <==> ((exists|i: int| 0 <= i < satisfied_atoms(l).len() && dep(states, source, #[trigger] satisfied_atoms(l)[i], scope))
            || (exists|i: int| 0 <= i < satisfied_atoms(r).len() && dep(states, source, #[trigger] satisfied_atoms(r)[i], scope))),
{
    let a = satisfied_atoms(l);
    let b = satisfied_atoms(r);
    if exists|i: int| 0 <= i < (a + b).len() && dep(states, source, #[trigger] (a + b)[i], scope) {
        let i = choose|i: int| 0 <= i < (a + b).len() && dep(states, source, #[trigger] (a + b)[i], scope);
        if i < a.len() {
            assert((a + b)[i] == a[i]);
        } else {
            assert((a + b)[i] == b[i - a.len()]);
        }
    }
    if exists|i: int| 0 <= i < a.len() && dep(states, source, #[trigger] a[i], scope) {
        let i = choose|i: int| 0 <= i < a.len() && dep(states, source, #[trigger] a[i], scope);
        assert((a + b)[i] == a[i]);
    }
    if exists|i: int| 0 <= i < b.len() && dep(states, source, #[trigger] b[i], scope) {
        let i = choose|i: int| 0 <= i < b.len() && dep(states, source, #[trigger] b[i], scope);
        assert((a + b)[a.len() + i] == b[i]);
    }
}

/// A condition that depends on `source` still does after `and` or `or`
/// with any other condition, on either side.
pub proof fn lemma_cond_depends_combined(
    states: Seq<(Seq<char>, ObligationState)>,
    l: ConditionView,
    r: ConditionView,
    source: Seq<char>,
    scope: Option<Seq<char>>,
)
    requires
        cond_depends(states, l, source, scope),
    ensures
        cond_depends(states, ConditionView::And(Box::new(l), Box::new(r)), source, scope),
        cond_depends(states, ConditionView::And(Box::new(r), Box::new(l)), source, scope),
        cond_depends(states, ConditionView::Or(Box::new(l), Box::new(r)), source, scope),
        cond_depends(states, ConditionView::Or(Box::new(r), Box::new(l)), source, scope),
{
    let x = ConditionView::And(Box::new(l), Box::new(r));
    let y = ConditionView::And(Box::new(r), Box::new(l));
    lemma_cond_depends_atoms(states, l, source, scope);
    lemma_cond_depends_atoms(states, x, source, scope);
    lemma_cond_depends_atoms(states, y, source, scope);
    lemma_atoms_concat(states, l, r, source, scope);
    lemma_atoms_concat(states, r, l, source, scope);
    let xo = ConditionView::Or(Box::new(l), Box::new(r));
    let yo = ConditionView::Or(Box::new(r), Box::new(l));
    lemma_cond_depends_atoms(states, xo, source, scope);
    lemma_cond_depends_atoms(states, yo, source, scope);
}

pub open spec fn opt_cond_depends(
    states: Seq<(Seq<char>, ObligationState)>,
    c: Option<ConditionView>,
    source: Seq<char>,
    scope: Option<Seq<char>>,
) -> bool {
    match c {
        Some(e) => cond_depends(states, e, source, scope),
        None => false,
    }
}

/// The one-element sequence `[l]` when `b`, else the empty one.
pub open spec fn link_if(b: bool, l: LinkView) -> Seq<LinkView> {
    if b { seq![l] } else { Seq::empty() }
}

/// The breach the phase waits for: its own target, else its remedy's.
pub open spec fn phase_trigger(r: RemedyView, p: PhaseView) -> Seq<char> {
    match p.breach_target {
        Some(t) => t,
        None => r.breach_target,
    }
}

pub open spec fn phase_links(
    states: Seq<(Seq<char>, ObligationState)>,
    source: Seq<char>,
    r: RemedyView,
    ps: Seq<PhaseView>,
) -> Seq<LinkView>
    decreases ps.len(),
{
    if ps.len() == 0 {
        Seq::empty()
    } else {
        let p = ps.last();
        let key = scoped_name(r.name, p.name);
        phase_links(states, source, r, ps.drop_last()) + link_if(
            dep(states, source, phase_trigger(r, p), Some(r.name)),
            link(source, key, "phase breach trigger"@),
        ) + link_if(
            opt_cond_depends(states, p.condition, source, Some(r.name)),
            link(source, key, "phase condition depends on satisfied(...)"@),
        )
    }
}

pub open spec fn remedy_links(states: Seq<(Seq<char>, ObligationState)>, source: Seq<char>, r: RemedyView) -> Seq<LinkView> {
    link_if(dep(states, source, r.breach_target, None), link(source, r.name, "remedy breach target"@)) + link_if(
        opt_cond_depends(states, r.condition, source, Some(r.name)),
        link(source, r.name, "remedy condition depends on satisfied(...)"@),
    ) + phase_links(states, source, r, r.phases)
}

pub open spec fn remedies_links(
    states: Seq<(Seq<char>, ObligationState)>,
    source: Seq<char>,
    rs: Seq<(Seq<char>, RemedyView)>,
) -> Seq<LinkView>
    decreases rs.len(),
{
    if rs.len() == 0 {
        Seq::empty()
    } else {
        remedies_links(states, source, rs.drop_last()) + remedy_links(states, source, rs.last().1)
    }
}

pub open spec fn obligations_links(
    states: Seq<(Seq<char>, ObligationState)>,
    source: Seq<char>,
    os: Seq<(Seq<char>, ObligationView)>,
) -> Seq<LinkView>
    decreases os.len(),
{
    if os.len() == 0 {
        Seq::empty()
    } else {
        let o = os.last().1;
        obligations_links(states, source, os.drop_last()) + link_if(
            opt_cond_depends(states, o.condition, source, None),
            link(source, o.name, "obligation condition depends on satisfied(...)"@),
        )
    }
}

/// A deadline given by term `t`.
pub open spec fn due_on_term(d: Option<DueView>, t: Seq<char>) -> bool {
    d == Some(DueView::TermRef(t))
}

pub open spec fn item_if(b: bool, name: Seq<char>, scope: Option<Seq<char>>) -> Seq<(Seq<char>, Option<Seq<char>>)> {
    if b { seq![(name, scope)] } else { Seq::empty() }
}

pub open spec fn obligations_due_on(os: Seq<(Seq<char>, ObligationView)>, t: Seq<char>) -> Seq<(Seq<char>, Option<Seq<char>>)>
    decreases os.len(),
{
    if os.len() == 0 {
        Seq::empty()
    } else {
        let o = os.last().1;
        obligations_due_on(os.drop_last(), t) + item_if(due_on_term(o.due, t), o.name, None)
    }
}

pub open spec fn phases_due_on(r: RemedyView, ps: Seq<PhaseView>, t: Seq<char>) -> Seq<(Seq<char>, Option<Seq<char>>)>
    decreases ps.len(),
{
    if ps.len() == 0 {
        Seq::empty()
    } else {
        let p = ps.last();
        phases_due_on(r, ps.drop_last(), t) + item_if(due_on_term(p.due, t), scoped_name(r.name, p.name), Some(r.name))
    }
}

pub open spec fn remedies_due_on(rs: Seq<(Seq<char>, RemedyView)>, t: Seq<char>) -> Seq<(Seq<char>, Option<Seq<char>>)>
    decreases rs.len(),
{
    if rs.len() == 0 {
        Seq::empty()
    } else {
        let r = rs.last().1;
        remedies_due_on(rs.drop_last(), t) + item_if(due_on_term(r.due, t), r.name, None) + phases_due_on(r, r.phases, t)
    }
}

/// The runtime items whose deadline is term `t`, each with the remedy in
/// whose scope its names resolve.
pub open spec fn items_due_on(c: ContractView, t: Seq<char>) -> Seq<(Seq<char>, Option<Seq<char>>)> {
    obligations_due_on(c.obligations, t) + remedies_due_on(c.remedies, t)
}

pub open spec fn term_reason(t: Seq<char>) -> Seq<char> {
    "due date anchored by term '"@ + t + "'"@
}

pub open spec fn anchored_links(
    states: Seq<(Seq<char>, ObligationState)>,
    source: Seq<char>,
    target: Seq<char>,
    t: Seq<char>,
    items: Seq<(Seq<char>, Option<Seq<char>>)>,
) -> Seq<LinkView>
    decreases items.len(),
{
    if items.len() == 0 {
        Seq::empty()
    } else {
        let it = items.last();
        anchored_links(states, source, target, t, items.drop_last()) + link_if(
            dep(states, source, target, it.1),
            link(source, it.0, term_reason(t)),
        )
    }
}

/// The terms anchored on a breach: each term's name and the breached item.
pub open spec fn breach_anchors(ts: Seq<(Seq<char>, TermView)>) -> Seq<(Seq<char>, Seq<char>)>
    decreases ts.len(),
{
    if ts.len() == 0 {
        Seq::empty()
    } else {
        let t = ts.last().1;
        breach_anchors(ts.drop_last()) + match t.anchor {
            TermAnchorView::BreachOf(target) => seq![(t.name, target)],
            TermAnchorView::Event(_) => Seq::empty(),
        }
    }
}

pub open spec fn anchors_links(
    states: Seq<(Seq<char>, ObligationState)>,
    c: ContractView,
    source: Seq<char>,
    anchors: Seq<(Seq<char>, Seq<char>)>,
) -> Seq<LinkView>
    decreases anchors.len(),
{
    if anchors.len() == 0 {
        Seq::empty()
    } else {
        let a = anchors.last();
        anchors_links(states, c, source, anchors.drop_last()) + anchored_links(states, source, a.1, a.0, items_due_on(c, a.0))
    }
}

/// The direct effects of a breach of `source`: remedies and phases
/// triggered by it, items whose condition asks whether it is satisfied, and
/// items whose deadline is a term anchored on its breach.
pub open spec fn direct_links(states: Seq<(Seq<char>, ObligationState)>, c: ContractView, source: Seq<char>) -> Seq<LinkView> {
    remedies_links(states, source, c.remedies) + obligations_links(states, source, c.obligations) + anchors_links(
        states,
        c,
        source,
        breach_anchors(c.terms),
    )
}

pub open spec fn opt_str(o: Option<&str>) -> Option<Seq<char>> {
    match o {
        Some(s) => Some(s@),
        None => None,
    }
}

/// The state key `name` refers to (see `resolve_key`).
fn resolve_in(states: &NameMap<ObligationState>, name: &str, scope: Option<&str>) -> (res: String)
    ensures
        res@ == resolve_key(states@, name@, opt_str(scope)),
{
    proof {
        states.lemma_view();
    }
    if states.contains_key(name) {
        return owned(name);
    }
    match scope {
        Some(sc) => {
            let mut scoped = owned(sc);
            push_char(&mut scoped, '.');
            append_str(&mut scoped, name);
            if states.contains_key(scoped.as_str()) {
                scoped
            } else {
                owned(name)
            }
        },
        None => owned(name),
    }
}

fn matches_dependency_target(states: &NameMap<ObligationState>, source: &str, target: &str, scope: Option<&str>) -> (b: bool)
    ensures
        b == dep(states@, source@, target@, opt_str(scope)),
{
    let r = resolve_in(states, target, scope);
    text_eq(source, r.as_str())
}

fn cond_depends_exec(states: &NameMap<ObligationState>, c: &ConditionExpr, source: &str, scope: Option<&str>) -> (b: bool)
    ensures
        b == cond_depends(states@, c@, source@, opt_str(scope)),
    decreases c,
{
    match c {
        ConditionExpr::Satisfied(t) => matches_dependency_target(states, source, t.as_str(), scope),
        ConditionExpr::And(l, r) => {
            let a = cond_depends_exec(states, l, source, scope);
            let b = cond_depends_exec(states, r, source, scope);
            a || b
        },
        ConditionExpr::Or(l, r) => {
            let a = cond_depends_exec(states, l, source, scope);
            let b = cond_depends_exec(states, r, source, scope);
            a || b
        },
        _ => false,
    }
}

fn condition_depends_on_satisfied(
    states: &NameMap<ObligationState>,
    condition: &Option<ConditionExpr>,
    source: &str,
    scope: Option<&str>,
) -> (b: bool)
    ensures
        b == opt_cond_depends(states@, crate::namemap::opt_view(*condition), source@, opt_str(scope)),
{
    match condition {
        Some(c) => cond_depends_exec(states, c, source, scope),
        None => false,
    }
}

/// Whether a deadline is the term `term_name`.
pub fn obligation_uses_term(due: &Option<DueDef>, term_name: &str) -> (b: bool)
    ensures
        b == due_on_term(crate::namemap::opt_view(*due), term_name@),
{
    match due {
        Some(DueDef::TermRef(name)) => text_eq(name.as_str(), term_name),
        _ => false,
    }
}

fn push_link(links: &mut Vec<CascadeLink>, b: bool, from: &str, to: &str, reason: &str)
    ensures
        views(final(links)@) == views(old(links)@) + link_if(b, link(from@, to@, reason@)),
{
    let ghost before = views(links@);
    if b {
        let l = CascadeLink { from: owned(from), to: owned(to), reason: owned(reason) };
        let ghost lv = l@;
        links.push(l);
        assert(views(links@) =~= before + seq![lv]);
    } else {
        assert(views(links@) =~= before + Seq::<LinkView>::empty());
    }
}

fn push_item(items: &mut Vec<(String, Option<String>)>, b: bool, name: &str, scope: Option<&str>)
    ensures
        item_views(final(items)@) == item_views(old(items)@) + item_if(b, name@, opt_str(scope)),
{
    let ghost before = item_views(items@);
    if b {
        let sc = match scope {
            Some(s) => Some(owned(s)),
            None => None,
        };
        let ghost iv = (name@, crate::namemap::opt_view(sc));
        items.push((owned(name), sc));
        assert(item_views(items@) =~= before + seq![iv]);
    } else {
        assert(item_views(items@) =~= before + Seq::<(Seq<char>, Option<Seq<char>>)>::empty());
    }
}

pub open spec fn item_views(v: Seq<(String, Option<String>)>) -> Seq<(Seq<char>, Option<Seq<char>>)> {
    v.map_values(|e: (String, Option<String>)| (e.0@, crate::namemap::opt_view(e.1)))
}

pub open spec fn anchor_views(v: Seq<(String, String)>) -> Seq<(Seq<char>, Seq<char>)> {
    v.map_values(|e: (String, String)| (e.0@, e.1@))
}

fn phase_key(remedy: &RemedyDef, phase: &PhaseDef) -> (res: String)
    ensures
        res@ == scoped_name(remedy.name@, phase.name@),
{
    let mut key = owned(remedy.name.as_str());
    push_char(&mut key, '.');
    append_str(&mut key, phase.name.as_str());
    key
}

    /// The runtime items whose deadline is term `term_name` (see `items_due_on`).
    fn items_due_on_term(c: &ContractDef, term_name: &str) -> (res: Vec<(String, Option<String>)>)
        ensures
            item_views(res@) == items_due_on(c@, term_name@),
    {
        let ghost os = c@.obligations;
        let ghost rs = c@.remedies;
        let mut items: Vec<(String, Option<String>)> = Vec::new();
        let mut i: usize = 0;
        proof {
            c.obligations.lemma_view();
            c.remedies.lemma_view();
            assert(item_views(items@) =~= obligations_due_on(os.take(0), term_name@));
        }
        while i < c.obligations.len()
            invariant
                os == c@.obligations,
                os.len() == c.obligations.vals().len(),
                i <= os.len(),
                item_views(items@) == obligations_due_on(os.take(i as int), term_name@),
            decreases os.len() - i,
        {
            let o = c.obligations.value_at(i);
            proof {
                c.obligations.lemma_view();
                assert(os[i as int].1 == o@);
                assert(os.take(i + 1).drop_last() =~= os.take(i as int));
            }
            let uses = obligation_uses_term(&o.due, term_name);
            push_item(&mut items, uses, o.name.as_str(), None);
            i = i + 1;
        }
        let ghost first = item_views(items@);
        proof {
            assert(os.take(i as int) =~= os);
            assert(item_views(items@) =~= first + remedies_due_on(rs.take(0), term_name@));
        }
        let mut j: usize = 0;
        while j < c.remedies.len()
            invariant
                rs == c@.remedies,
                rs.len() == c.remedies.vals().len(),
                j <= rs.len(),
                item_views(items@) == first + remedies_due_on(rs.take(j as int), term_name@),
            decreases rs.len() - j,
        {
            let r = c.remedies.value_at(j);
            proof {
                c.remedies.lemma_view();
                assert(rs[j as int].1 == r@);
                assert(rs.take(j + 1).drop_last() =~= rs.take(j as int));
            }
            let ghost base = item_views(items@);
            let uses = obligation_uses_term(&r.due, term_name);
            push_item(&mut items, uses, r.name.as_str(), None);
            let ghost mid = item_views(items@);
            let mut k: usize = 0;
            proof {
                assert(item_views(items@) =~= mid + phases_due_on(r@, r@.phases.take(0), term_name@));
            }
            while k < r.phases.len()
                invariant
                    k <= r.phases@.len(),
                    item_views(items@) == mid + phases_due_on(r@, r@.phases.take(k as int), term_name@),
                decreases r.phases@.len() - k,
            {
                let p = &r.phases[k];
                proof {
                    assert(r@.phases[k as int] == p@);
                    assert(r@.phases.take(k + 1).drop_last() =~= r@.phases.take(k as int));
                }
                let key = phase_key(r, p);
                let uses = obligation_uses_term(&p.due, term_name);
                push_item(&mut items, uses, key.as_str(), Some(r.name.as_str()));
                k = k + 1;
            }
            proof {
                assert(r@.phases.take(k as int) =~= r@.phases);
            }
            j = j + 1;
        }
        proof {
            assert(rs.take(j as int) =~= rs);
        }
        items
    }

    /// The terms anchored on a breach, with the breached item (see
    /// `breach_anchors`).
    fn term_breach_anchors(c: &ContractDef) -> (res: Vec<(String, String)>)
        ensures
            anchor_views(res@) == breach_anchors(c@.terms),
    {
        let ghost ts = c@.terms;
        let mut anchors: Vec<(String, String)> = Vec::new();
        let mut i: usize = 0;
        proof {
            c.terms.lemma_view();
            assert(anchor_views(anchors@) =~= breach_anchors(ts.take(0)));
        }
        while i < c.terms.len()
            invariant
                ts == c@.terms,
                ts.len() == c.terms.vals().len(),
                i <= ts.len(),
                anchor_views(anchors@) == breach_anchors(ts.take(i as int)),
            decreases ts.len() - i,
        {
            let t = c.terms.value_at(i);
            proof {
                c.terms.lemma_view();
                assert(ts[i as int].1 == t@);
                assert(ts.take(i + 1).drop_last() =~= ts.take(i as int));
            }
            let ghost before = anchor_views(anchors@);
            match &t.anchor {
                TermAnchor::BreachOf(target) => {
                    anchors.push((t.name.clone(), target.clone()));
                    proof {
                        assert(anchor_views(anchors@) =~= before + seq![(t.name@, target@)]);
                    }
                },
                TermAnchor::Event(_) => {
                    proof {
                        assert(anchor_views(anchors@) =~= before + Seq::<(Seq<char>, Seq<char>)>::empty());
                    }
                },
            }
            i = i + 1;
        }
        proof {
            assert(ts.take(i as int) =~= ts);
        }
        anchors
    }

    fn remedy_links_exec(states: &NameMap<ObligationState>, links: &mut Vec<CascadeLink>, source: &str, r: &RemedyDef)
        ensures
            views(final(links)@) == views(old(links)@) + remedy_links(states@, source@, r@),
    {
        let b1 = matches_dependency_target(states, source, r.breach_target.as_str(), None);
        push_link(links, b1, source, r.name.as_str(), "remedy breach target");
        let b2 = condition_depends_on_satisfied(states, &r.condition, source, Some(r.name.as_str()));
        push_link(links, b2, source, r.name.as_str(), "remedy condition depends on satisfied(...)");
        let ghost mid = views(links@);
        let mut k: usize = 0;
        proof {
            assert(views(links@) =~= mid + phase_links(states@, source@, r@, r@.phases.take(0)));
        }
        while k < r.phases.len()
            invariant
                k <= r.phases@.len(),
                views(links@) == mid + phase_links(states@, source@, r@, r@.phases.take(k as int)),
            decreases r.phases@.len() - k,
        {
            let p = &r.phases[k];
            proof {
                assert(r@.phases[k as int] == p@);
                assert(r@.phases.take(k + 1).drop_last() =~= r@.phases.take(k as int));
            }
            let key = phase_key(r, p);
            let trigger: &str = match &p.breach_target {
                Some(t) => t.as_str(),
                None => r.breach_target.as_str(),
            };
            let b3 = matches_dependency_target(states, source, trigger, Some(r.name.as_str()));
            push_link(links, b3, source, key.as_str(), "phase breach trigger");
            let b4 = condition_depends_on_satisfied(states, &p.condition, source, Some(r.name.as_str()));
            push_link(links, b4, source, key.as_str(), "phase condition depends on satisfied(...)");
            k = k + 1;
        }
        proof {
            assert(r@.phases.take(k as int) =~= r@.phases);
        }
    }

    /// The direct effects of a breach of `source` (see `direct_links`).
    pub fn direct_cascade_links_from(c: &ContractDef, states: &NameMap<ObligationState>, source: &str) -> (res: Vec<CascadeLink>)
        ensures
            views(res@) == direct_links(states@, c@, source@),
    {
        let ghost rs = c@.remedies;
        let ghost os = c@.obligations;
        let mut links: Vec<CascadeLink> = Vec::new();
        let mut i: usize = 0;
        proof {
            c.remedies.lemma_view();
            c.obligations.lemma_view();
            assert(views(links@) =~= remedies_links(states@, source@, rs.take(0)));
        }
        while i < c.remedies.len()
            invariant
                rs == c@.remedies,
                rs.len() == c.remedies.vals().len(),
                i <= rs.len(),
                views(links@) == remedies_links(states@, source@, rs.take(i as int)),
            decreases rs.len() - i,
        {
            let r = c.remedies.value_at(i);
            proof {
                c.remedies.lemma_view();
                assert(rs[i as int].1 == r@);
                assert(rs.take(i + 1).drop_last() =~= rs.take(i as int));
            }
            remedy_links_exec(states, &mut links, source, r);
            i = i + 1;
        }
        let ghost part1 = views(links@);
        proof {
            assert(rs.take(i as int) =~= rs);
            assert(views(links@) =~= part1 + obligations_links(states@, source@, os.take(0)));
        }
        let mut j: usize = 0;
        while j < c.obligations.len()
            invariant
                os == c@.obligations,
                os.len() == c.obligations.vals().len(),
                j <= os.len(),
                views(links@) == part1 + obligations_links(states@, source@, os.take(j as int)),
            decreases os.len() - j,
        {
            let o = c.obligations.value_at(j);
            proof {
                c.obligations.lemma_view();
                assert(os[j as int].1 == o@);
                assert(os.take(j + 1).drop_last() =~= os.take(j as int));
            }
            let b = condition_depends_on_satisfied(states, &o.condition, source, None);
            push_link(&mut links, b, source, o.name.as_str(), "obligation condition depends on satisfied(...)");
            j = j + 1;
        }
        let ghost part2 = views(links@);
        let anchors = term_breach_anchors(c);
        let ghost an = anchor_views(anchors@);
        proof {
            assert(os.take(j as int) =~= os);
            assert(views(links@) =~= part2 + anchors_links(states@, c@, source@, an.take(0)));
        }
        let mut a: usize = 0;
        while a < anchors.len()
            invariant
                an == anchor_views(anchors@),
                a <= an.len(),
                views(links@) == part2 + anchors_links(states@, c@, source@, an.take(a as int)),
            decreases an.len() - a,
        {
            let (term_name, target) = &anchors[a];
            proof {
                assert(an[a as int] == (term_name@, target@));
                assert(an.take(a + 1).drop_last() =~= an.take(a as int));
            }
            let items = items_due_on_term(c, term_name.as_str());
            let ghost its = item_views(items@);
            let ghost base = views(links@);
            let mut reason = owned("due date anchored by term '");
            append_str(&mut reason, term_name.as_str());
            append_str(&mut reason, "'");
            let mut k: usize = 0;
            proof {
                assert(views(links@) =~= base + anchored_links(states@, source@, target@, term_name@, its.take(0)));
            }
            while k < items.len()
                invariant
                    its == item_views(items@),
                    k <= its.len(),
                    reason@ == term_reason(term_name@),
                    views(links@) == base + anchored_links(states@, source@, target@, term_name@, its.take(k as int)),
                decreases its.len() - k,
            {
                let (item, scope) = &items[k];
                let sc: Option<&str> = match scope {
                    Some(s) => Some(s.as_str()),
                    None => None,
                };
                proof {
                    assert(its[k as int] == (item@, opt_str(sc)));
                    assert(its.take(k + 1).drop_last() =~= its.take(k as int));
                }
                let b = matches_dependency_target(states, source, target.as_str(), sc);
                push_link(&mut links, b, source, item.as_str(), reason.as_str());
                k = k + 1;
            }
            proof {
                assert(its.take(k as int) =~= its);
            }
            a = a + 1;
        }
        proof {
            assert(an.take(a as int) =~= an);
        }
        links
    }

// ---------------------------------------------------------------------------
// Reachability
// ---------------------------------------------------------------------------

/// A breach of `a` directly affects `b`.
pub open spec fn edge(states: Seq<(Seq<char>, ObligationState)>, c: ContractView, a: Seq<char>, b: Seq<char>) -> bool {
    exists|l: LinkView| #[trigger] direct_links(states, c, a).contains(l) && l.to == b
}

/// Each item of `p` is directly affected by the one before.
pub open spec fn is_path(states: Seq<(Seq<char>, ObligationState)>, c: ContractView, p: Seq<Seq<char>>) -> bool {
    &&& p.len() >= 1
    &&& forall|i: int| 0 <= i < p.len() - 1 ==> #[trigger] edge(states, c, p[i], p[i + 1])
}

/// A breach of `root` reaches `n`, through any number of direct effects.
pub open spec fn reachable(states: Seq<(Seq<char>, ObligationState)>, c: ContractView, root: Seq<char>, n: Seq<char>) -> bool {
    exists|p: Seq<Seq<char>>| #[trigger] is_path(states, c, p) && p[0] == root && p.last() == n
}

/// `l` is an effect of a breach of `root`: a direct effect of an item the
/// breach reaches.
pub open spec fn in_cascade(states: Seq<(Seq<char>, ObligationState)>, c: ContractView, root: Seq<char>, l: LinkView) -> bool {
    exists|s: Seq<char>| #[trigger] reachable(states, c, root, s) && direct_links(states, c, s).contains(l)
}

pub proof fn lemma_reach_root(states: Seq<(Seq<char>, ObligationState)>, c: ContractView, root: Seq<char>)
    ensures
        reachable(states, c, root, root),
{
    let p = seq![root];
    assert(is_path(states, c, p));
}

pub proof fn lemma_reach_step(
    states: Seq<(Seq<char>, ObligationState)>,
    c: ContractView,
    root: Seq<char>,
    s: Seq<char>,
    l: LinkView,
)
    requires
        reachable(states, c, root, s),
        direct_links(states, c, s).contains(l),
    ensures
        reachable(states, c, root, l.to),
{
    let p = choose|p: Seq<Seq<char>>| #[trigger] is_path(states, c, p) && p[0] == root && p.last() == s;
    let q = p.push(l.to);
    assert(edge(states, c, s, l.to));
    assert forall|i: int| 0 <= i < q.len() - 1 implies #[trigger] edge(states, c, q[i], q[i + 1]) by {
        if i < p.len() - 1 {
            assert(q[i] == p[i]);
            assert(q[i + 1] == p[i + 1]);
            assert(edge(states, c, p[i], p[i + 1]));
        } else {
            assert(q[i] == s);
            assert(q[i + 1] == l.to);
        }
    }
    assert(is_path(states, c, q));
    assert(q[0] == root);
}

/// A set of items that holds `root` and every item its members directly
/// affect holds every item a breach of `root` reaches.
pub proof fn lemma_closed_contains_reachable(
    states: Seq<(Seq<char>, ObligationState)>,
    c: ContractView,
    root: Seq<char>,
    e: Seq<Seq<char>>,
    n: Seq<char>,
)
    requires
        e.contains(root),
        forall|s: Seq<char>, l: LinkView|
            e.contains(s) && #[trigger] direct_links(states, c, s).contains(l) ==> e.contains(l.to),
        reachable(states, c, root, n),
    ensures
        e.contains(n),
{
    let p = choose|p: Seq<Seq<char>>| #[trigger] is_path(states, c, p) && p[0] == root && p.last() == n;
    lemma_path_in(states, c, p, e, p.len() - 1);
}

pub proof fn lemma_path_in(states: Seq<(Seq<char>, ObligationState)>, c: ContractView, p: Seq<Seq<char>>, e: Seq<Seq<char>>, i: int)
    requires
        is_path(states, c, p),
        0 <= i < p.len(),
        e.contains(p[0]),
        forall|s: Seq<char>, l: LinkView|
            e.contains(s) && #[trigger] direct_links(states, c, s).contains(l) ==> e.contains(l.to),
    ensures
        e.contains(p[i]),
    decreases i,
{
    if i > 0 {
        lemma_path_in(states, c, p, e, i - 1);
        let j = i - 1;
        assert(edge(states, c, p[j], p[j + 1]));
        assert(j + 1 == i);
        let l = choose|l: LinkView| #[trigger] direct_links(states, c, p[j]).contains(l) && l.to == p[j + 1];
    }
}

// ---------------------------------------------------------------------------
// Every effect lands on an item of the contract
// ---------------------------------------------------------------------------

pub open spec fn obl_names(os: Seq<(Seq<char>, ObligationView)>) -> Seq<Seq<char>> {
    os.map_values(|e: (Seq<char>, ObligationView)| e.1.name)
}

pub open spec fn rem_names(rs: Seq<(Seq<char>, RemedyView)>) -> Seq<Seq<char>>
    decreases rs.len(),
{
    if rs.len() == 0 {
        Seq::empty()
    } else {
        let r = rs.last().1;
        rem_names(rs.drop_last()) + seq![r.name] + r.phases.map_values(|p: PhaseView| scoped_name(r.name, p.name))
    }
}

/// The names of every runtime item of a contract.
pub open spec fn all_names(c: ContractView) -> Seq<Seq<char>> {
    obl_names(c.obligations) + rem_names(c.remedies)
}

pub proof fn lemma_concat_contains<T>(a: Seq<T>, b: Seq<T>, x: T)
    ensures
        (a + b).contains(x) <==> (a.contains(x) || b.contains(x)),
{
    if (a + b).contains(x) {
        let k = choose|k: int| 0 <= k < (a + b).len() && #[trigger] (a + b)[k] == x;
        if k < a.len() {
            assert(a[k] == x);
        } else {
            assert(b[k - a.len()] == x);
        }
    }
    if a.contains(x) {
        let k = choose|k: int| 0 <= k < a.len() && #[trigger] a[k] == x;
        assert((a + b)[k] == x);
    }
    if b.contains(x) {
        let k = choose|k: int| 0 <= k < b.len() && #[trigger] b[k] == x;
        assert((a + b)[a.len() + k] == x);
    }
}

pub proof fn lemma_link_if_contains(b: bool, l: LinkView, x: LinkView)
    ensures
        link_if(b, l).contains(x) ==> x == l,
{
    if link_if(b, l).contains(x) {
        let k = choose|k: int| 0 <= k < link_if(b, l).len() && #[trigger] link_if(b, l)[k] == x;
    }
}

pub proof fn lemma_phase_links_targets(
    states: Seq<(Seq<char>, ObligationState)>,
    source: Seq<char>,
    r: RemedyView,
    ps: Seq<PhaseView>,
    l: LinkView,
)
    requires
        phase_links(states, source, r, ps).contains(l),
    ensures
        ps.map_values(|p: PhaseView| scoped_name(r.name, p.name)).contains(l.to),
    decreases ps.len(),
{
    let d = ps.drop_last();
    let p = ps.last();
    let key = scoped_name(r.name, p.name);
    let w1 = link_if(dep(states, source, phase_trigger(r, p), Some(r.name)), link(source, key, "phase breach trigger"@));
    let w2 = link_if(opt_cond_depends(states, p.condition, source, Some(r.name)), link(source, key, "phase condition depends on satisfied(...)"@));
    lemma_concat_contains(phase_links(states, source, r, d) + w1, w2, l);
    lemma_concat_contains(phase_links(states, source, r, d), w1, l);
    let names = ps.map_values(|q: PhaseView| scoped_name(r.name, q.name));
    if phase_links(states, source, r, d).contains(l) {
        lemma_phase_links_targets(states, source, r, d, l);
        let dn = d.map_values(|q: PhaseView| scoped_name(r.name, q.name));
        let k = choose|k: int| 0 <= k < dn.len() && #[trigger] dn[k] == l.to;
        assert(names[k] == l.to);
    } else {
        lemma_link_if_contains(dep(states, source, phase_trigger(r, p), Some(r.name)), link(source, key, "phase breach trigger"@), l);
        lemma_link_if_contains(opt_cond_depends(states, p.condition, source, Some(r.name)), link(source, key, "phase condition depends on satisfied(...)"@), l);
        assert(names[ps.len() - 1] == l.to);
    }
}

pub proof fn lemma_remedies_links_targets(
    states: Seq<(Seq<char>, ObligationState)>,
    source: Seq<char>,
    rs: Seq<(Seq<char>, RemedyView)>,
    l: LinkView,
)
    requires
        remedies_links(states, source, rs).contains(l),
    ensures
        rem_names(rs).contains(l.to),
    decreases rs.len(),
{
    let d = rs.drop_last();
    let r = rs.last().1;
    let pn = r.phases.map_values(|p: PhaseView| scoped_name(r.name, p.name));
    lemma_concat_contains(remedies_links(states, source, d), remedy_links(states, source, r), l);
    lemma_concat_contains(rem_names(d) + seq![r.name], pn, l.to);
    lemma_concat_contains(rem_names(d), seq![r.name], l.to);
    if remedies_links(states, source, d).contains(l) {
        lemma_remedies_links_targets(states, source, d, l);
    } else {
        let w1 = link_if(dep(states, source, r.breach_target, None), link(source, r.name, "remedy breach target"@));
        let w2 = link_if(
            opt_cond_depends(states, r.condition, source, Some(r.name)),
            link(source, r.name, "remedy condition depends on satisfied(...)"@),
        );
        lemma_concat_contains(w1 + w2, phase_links(states, source, r, r.phases), l);
        lemma_concat_contains(w1, w2, l);
        if phase_links(states, source, r, r.phases).contains(l) {
            lemma_phase_links_targets(states, source, r, r.phases, l);
        } else {
            lemma_link_if_contains(dep(states, source, r.breach_target, None), link(source, r.name, "remedy breach target"@), l);
            lemma_link_if_contains(
                opt_cond_depends(states, r.condition, source, Some(r.name)),
                link(source, r.name, "remedy condition depends on satisfied(...)"@),
                l,
            );
            assert(seq![r.name][0] == l.to);
        }
    }
}

pub proof fn lemma_obligations_links_targets(
    states: Seq<(Seq<char>, ObligationState)>,
    source: Seq<char>,
    os: Seq<(Seq<char>, ObligationView)>,
    l: LinkView,
)
    requires
        obligations_links(states, source, os).contains(l),
    ensures
        obl_names(os).contains(l.to),
    decreases os.len(),
{
    let d = os.drop_last();
    let o = os.last().1;
    let w = link_if(opt_cond_depends(states, o.condition, source, None), link(source, o.name, "obligation condition depends on satisfied(...)"@));
    lemma_concat_contains(obligations_links(states, source, d), w, l);
    if obligations_links(states, source, d).contains(l) {
        lemma_obligations_links_targets(states, source, d, l);
        let k = choose|k: int| 0 <= k < obl_names(d).len() && #[trigger] obl_names(d)[k] == l.to;
        assert(obl_names(os)[k] == l.to);
    } else {
        lemma_link_if_contains(opt_cond_depends(states, o.condition, source, None), link(source, o.name, "obligation condition depends on satisfied(...)"@), l);
        assert(obl_names(os)[os.len() - 1] == l.to);
    }
}

pub proof fn lemma_item_if_contains(b: bool, n: Seq<char>, sc: Option<Seq<char>>, x: (Seq<char>, Option<Seq<char>>))
    ensures
        item_if(b, n, sc).contains(x) ==> x == (n, sc),
{
    if item_if(b, n, sc).contains(x) {
        let k = choose|k: int| 0 <= k < item_if(b, n, sc).len() && #[trigger] item_if(b, n, sc)[k] == x;
    }
}

pub proof fn lemma_obligations_due_names(os: Seq<(Seq<char>, ObligationView)>, t: Seq<char>, x: (Seq<char>, Option<Seq<char>>))
    requires
        obligations_due_on(os, t).contains(x),
    ensures
        obl_names(os).contains(x.0),
    decreases os.len(),
{
    let d = os.drop_last();
    let o = os.last().1;
    lemma_concat_contains(obligations_due_on(d, t), item_if(due_on_term(o.due, t), o.name, None), x);
    if obligations_due_on(d, t).contains(x) {
        lemma_obligations_due_names(d, t, x);
        let k = choose|k: int| 0 <= k < obl_names(d).len() && #[trigger] obl_names(d)[k] == x.0;
        assert(obl_names(os)[k] == x.0);
    } else {
        lemma_item_if_contains(due_on_term(o.due, t), o.name, None, x);
        assert(obl_names(os)[os.len() - 1] == x.0);
    }
}

pub proof fn lemma_phases_due_names(r: RemedyView, ps: Seq<PhaseView>, t: Seq<char>, x: (Seq<char>, Option<Seq<char>>))
    requires
        phases_due_on(r, ps, t).contains(x),
    ensures
        ps.map_values(|p: PhaseView| scoped_name(r.name, p.name)).contains(x.0),
    decreases ps.len(),
{
    let d = ps.drop_last();
    let p = ps.last();
    let names = ps.map_values(|q: PhaseView| scoped_name(r.name, q.name));
    lemma_concat_contains(phases_due_on(r, d, t), item_if(due_on_term(p.due, t), scoped_name(r.name, p.name), Some(r.name)), x);
    if phases_due_on(r, d, t).contains(x) {
        lemma_phases_due_names(r, d, t, x);
        let dn = d.map_values(|q: PhaseView| scoped_name(r.name, q.name));
        let k = choose|k: int| 0 <= k < dn.len() && #[trigger] dn[k] == x.0;
        assert(names[k] == x.0);
    } else {
        lemma_item_if_contains(due_on_term(p.due, t), scoped_name(r.name, p.name), Some(r.name), x);
        assert(names[ps.len() - 1] == x.0);
    }
}

pub proof fn lemma_remedies_due_names(rs: Seq<(Seq<char>, RemedyView)>, t: Seq<char>, x: (Seq<char>, Option<Seq<char>>))
    requires
        remedies_due_on(rs, t).contains(x),
    ensures
        rem_names(rs).contains(x.0),
    decreases rs.len(),
{
    let d = rs.drop_last();
    let r = rs.last().1;
    let pn = r.phases.map_values(|p: PhaseView| scoped_name(r.name, p.name));
    let wi = item_if(due_on_term(r.due, t), r.name, None);
    lemma_concat_contains(remedies_due_on(d, t) + wi, phases_due_on(r, r.phases, t), x);
    lemma_concat_contains(remedies_due_on(d, t), wi, x);
    lemma_concat_contains(rem_names(d) + seq![r.name], pn, x.0);
    lemma_concat_contains(rem_names(d), seq![r.name], x.0);
    if remedies_due_on(d, t).contains(x) {
        lemma_remedies_due_names(d, t, x);
    } else if wi.contains(x) {
        lemma_item_if_contains(due_on_term(r.due, t), r.name, None, x);
        assert(seq![r.name][0] == x.0);
    } else {
        lemma_phases_due_names(r, r.phases, t, x);
    }
}

pub proof fn lemma_anchored_targets(
    states: Seq<(Seq<char>, ObligationState)>,
    source: Seq<char>,
    target: Seq<char>,
    t: Seq<char>,
    items: Seq<(Seq<char>, Option<Seq<char>>)>,
    l: LinkView,
)
    requires
        anchored_links(states, source, target, t, items).contains(l),
    ensures
        exists|i: int| 0 <= i < items.len() && (#[trigger] items[i]).0 == l.to,
    decreases items.len(),
{
    let d = items.drop_last();
    let it = items.last();
    let w = link_if(dep(states, source, target, it.1), link(source, it.0, term_reason(t)));
    lemma_concat_contains(anchored_links(states, source, target, t, d), w, l);
    if anchored_links(states, source, target, t, d).contains(l) {
        lemma_anchored_targets(states, source, target, t, d, l);
        let i = choose|i: int| 0 <= i < d.len() && (#[trigger] d[i]).0 == l.to;
        assert(items[i] == d[i]);
    } else {
        lemma_link_if_contains(dep(states, source, target, it.1), link(source, it.0, term_reason(t)), l);
        assert(items[items.len() - 1] == it);
    }
}

pub proof fn lemma_anchors_targets(
    states: Seq<(Seq<char>, ObligationState)>,
    c: ContractView,
    source: Seq<char>,
    anchors: Seq<(Seq<char>, Seq<char>)>,
    l: LinkView,
)
    requires
        anchors_links(states, c, source, anchors).contains(l),
    ensures
        all_names(c).contains(l.to),
    decreases anchors.len(),
{
    let d = anchors.drop_last();
    let a = anchors.last();
    let items = items_due_on(c, a.0);
    lemma_concat_contains(anchors_links(states, c, source, d), anchored_links(states, source, a.1, a.0, items), l);
    if anchors_links(states, c, source, d).contains(l) {
        lemma_anchors_targets(states, c, source, d, l);
    } else {
        lemma_anchored_targets(states, source, a.1, a.0, items, l);
        let i = choose|i: int| 0 <= i < items.len() && (#[trigger] items[i]).0 == l.to;
        let x = items[i];
        assert(items.contains(x));
        lemma_concat_contains(obligations_due_on(c.obligations, a.0), remedies_due_on(c.remedies, a.0), x);
        lemma_concat_contains(obl_names(c.obligations), rem_names(c.remedies), x.0);
        if obligations_due_on(c.obligations, a.0).contains(x) {
            lemma_obligations_due_names(c.obligations, a.0, x);
        } else {
            lemma_remedies_due_names(c.remedies, a.0, x);
        }
    }
}

/// Every direct effect lands on an item of the contract.
pub proof fn lemma_direct_targets(states: Seq<(Seq<char>, ObligationState)>, c: ContractView, source: Seq<char>, l: LinkView)
    requires
        direct_links(states, c, source).contains(l),
    ensures
        all_names(c).contains(l.to),
{
    let a = remedies_links(states, source, c.remedies);
    let b = obligations_links(states, source, c.obligations);
    let t = anchors_links(states, c, source, breach_anchors(c.terms));
    lemma_concat_contains(a + b, t, l);
    lemma_concat_contains(a, b, l);
    lemma_concat_contains(obl_names(c.obligations), rem_names(c.remedies), l.to);
    if a.contains(l) {
        lemma_remedies_links_targets(states, source, c.remedies, l);
    } else if b.contains(l) {
        lemma_obligations_links_targets(states, source, c.obligations, l);
    } else {
        lemma_anchors_targets(states, c, source, breach_anchors(c.terms), l);
    }
}

// ---------------------------------------------------------------------------
// What a direct effect looks like
// ---------------------------------------------------------------------------

/// The reasons a direct effect can give.
pub open spec fn known_reason(r: Seq<char>) -> bool {
    ||| r == "remedy breach target"@
    ||| r == "phase breach trigger"@
    ||| r == "remedy condition depends on satisfied(...)"@
    ||| r == "phase condition depends on satisfied(...)"@
    ||| r == "obligation condition depends on satisfied(...)"@
    ||| exists|t: Seq<char>| r == #[trigger] term_reason(t)
}

/// Every link of `s` starts at `source` and gives a known reason.
pub open spec fn all_from(source: Seq<char>, s: Seq<LinkView>) -> bool {
    forall|i: int| 0 <= i < s.len() ==> (#[trigger] s[i]).from == source && known_reason(s[i].reason)
}

proof fn lemma_all_from_concat(source: Seq<char>, a: Seq<LinkView>, b: Seq<LinkView>)
    requires
        all_from(source, a),
        all_from(source, b),
    ensures
        all_from(source, a + b),
{
    assert forall|i: int| 0 <= i < (a + b).len() implies (#[trigger] (a + b)[i]).from == source && known_reason((a + b)[i].reason) by {
        if i < a.len() {
            assert((a + b)[i] == a[i]);
        } else {
            assert((a + b)[i] == b[i - a.len()]);
        }
    }
}

proof fn lemma_phase_links_from(states: Seq<(Seq<char>, ObligationState)>, source: Seq<char>, r: RemedyView, ps: Seq<PhaseView>)
    ensures
        all_from(source, phase_links(states, source, r, ps)),
    decreases ps.len(),
{
    if ps.len() > 0 {
        let p = ps.last();
        let key = scoped_name(r.name, p.name);
        let w1 = link_if(dep(states, source, phase_trigger(r, p), Some(r.name)), link(source, key, "phase breach trigger"@));
        let w2 = link_if(opt_cond_depends(states, p.condition, source, Some(r.name)), link(source, key, "phase condition depends on satisfied(...)"@));
        lemma_phase_links_from(states, source, r, ps.drop_last());
        lemma_all_from_concat(source, phase_links(states, source, r, ps.drop_last()), w1);
        lemma_all_from_concat(source, phase_links(states, source, r, ps.drop_last()) + w1, w2);
    }
}

proof fn lemma_remedies_links_from(states: Seq<(Seq<char>, ObligationState)>, source: Seq<char>, rs: Seq<(Seq<char>, RemedyView)>)
    ensures
        all_from(source, remedies_links(states, source, rs)),
    decreases rs.len(),
{
    if rs.len() > 0 {
        let r = rs.last().1;
        let w1 = link_if(dep(states, source, r.breach_target, None), link(source, r.name, "remedy breach target"@));
        let w2 = link_if(
            opt_cond_depends(states, r.condition, source, Some(r.name)),
            link(source, r.name, "remedy condition depends on satisfied(...)"@),
        );
        lemma_remedies_links_from(states, source, rs.drop_last());
        lemma_phase_links_from(states, source, r, r.phases);
        lemma_all_from_concat(source, w1, w2);
        lemma_all_from_concat(source, w1 + w2, phase_links(states, source, r, r.phases));
        lemma_all_from_concat(source, remedies_links(states, source, rs.drop_last()), remedy_links(states, source, r));
    }
}

proof fn lemma_obligations_links_from(states: Seq<(Seq<char>, ObligationState)>, source: Seq<char>, os: Seq<(Seq<char>, ObligationView)>)
    ensures
        all_from(source, obligations_links(states, source, os)),
    decreases os.len(),
{
    if os.len() > 0 {
        let o = os.last().1;
        let w = link_if(opt_cond_depends(states, o.condition, source, None), link(source, o.name, "obligation condition depends on satisfied(...)"@));
        lemma_obligations_links_from(states, source, os.drop_last());
        lemma_all_from_concat(source, obligations_links(states, source, os.drop_last()), w);
    }
}

proof fn lemma_anchored_links_from(
    states: Seq<(Seq<char>, ObligationState)>,
    source: Seq<char>,
    target: Seq<char>,
    t: Seq<char>,
    items: Seq<(Seq<char>, Option<Seq<char>>)>,
)
    ensures
        all_from(source, anchored_links(states, source, target, t, items)),
    decreases items.len(),
{
    if items.len() > 0 {
        let it = items.last();
        let w = link_if(dep(states, source, target, it.1), link(source, it.0, term_reason(t)));
        lemma_anchored_links_from(states, source, target, t, items.drop_last());
        assert(known_reason(term_reason(t)));
        lemma_all_from_concat(source, anchored_links(states, source, target, t, items.drop_last()), w);
    }
}

proof fn lemma_anchors_links_from(
    states: Seq<(Seq<char>, ObligationState)>,
    c: ContractView,
    source: Seq<char>,
    anchors: Seq<(Seq<char>, Seq<char>)>,
)
    ensures
        all_from(source, anchors_links(states, c, source, anchors)),
    decreases anchors.len(),
{
    if anchors.len() > 0 {
        let a = anchors.last();
        lemma_anchors_links_from(states, c, source, anchors.drop_last());
        lemma_anchored_links_from(states, source, a.1, a.0, items_due_on(c, a.0));
        lemma_all_from_concat(
            source,
            anchors_links(states, c, source, anchors.drop_last()),
            anchored_links(states, source, a.1, a.0, items_due_on(c, a.0)),
        );
    }
}

/// Every direct effect of a breach of `source` starts at `source` and gives
/// one of the known reasons: a remedy or phase it triggers, an item whose
/// condition asks whether it is satisfied, or an item due by a term
/// anchored on its breach.
pub proof fn lemma_direct_links_from(states: Seq<(Seq<char>, ObligationState)>, c: ContractView, source: Seq<char>)
    ensures
        all_from(source, direct_links(states, c, source)),
{
    lemma_remedies_links_from(states, source, c.remedies);
    lemma_obligations_links_from(states, source, c.obligations);
    lemma_anchors_links_from(states, c, source, breach_anchors(c.terms));
    lemma_all_from_concat(source, remedies_links(states, source, c.remedies), obligations_links(states, source, c.obligations));
    lemma_all_from_concat(
        source,
        remedies_links(states, source, c.remedies) + obligations_links(states, source, c.obligations),
        anchors_links(states, c, source, breach_anchors(c.terms)),
    );
}

proof fn lemma_phase_links_has(
    states: Seq<(Seq<char>, ObligationState)>,
    source: Seq<char>,
    r: RemedyView,
    ps: Seq<PhaseView>,
    j: int,
)
    requires
        0 <= j < ps.len(),
        dep(states, source, phase_trigger(r, ps[j]), Some(r.name)),
    ensures
        phase_links(states, source, r, ps).contains(link(source, scoped_name(r.name, ps[j].name), "phase breach trigger"@)),
    decreases ps.len(),
{
    let l = link(source, scoped_name(r.name, ps[j].name), "phase breach trigger"@);
    let d = ps.drop_last();
    let p = ps.last();
    let key = scoped_name(r.name, p.name);
    let w1 = link_if(dep(states, source, phase_trigger(r, p), Some(r.name)), link(source, key, "phase breach trigger"@));
    let w2 = link_if(opt_cond_depends(states, p.condition, source, Some(r.name)), link(source, key, "phase condition depends on satisfied(...)"@));
    lemma_concat_contains(phase_links(states, source, r, d) + w1, w2, l);
    lemma_concat_contains(phase_links(states, source, r, d), w1, l);
    if j < ps.len() - 1 {
        assert(d[j] == ps[j]);
        lemma_phase_links_has(states, source, r, d, j);
    } else {
        assert(w1[0] == l);
    }
}

/// A phase whose breach trigger (its own, else its remedy's) names `source`
/// is a direct effect of a breach of `source`.
pub proof fn lemma_phase_trigger_linked(
    states: Seq<(Seq<char>, ObligationState)>,
    c: ContractView,
    source: Seq<char>,
    i: int,
    j: int,
)
    requires
        0 <= i < c.remedies.len(),
        0 <= j < c.remedies[i].1.phases.len(),
        dep(states, source, phase_trigger(c.remedies[i].1, c.remedies[i].1.phases[j]), Some(c.remedies[i].1.name)),
    ensures
        direct_links(states, c, source).contains(
            link(source, scoped_name(c.remedies[i].1.name, c.remedies[i].1.phases[j].name), "phase breach trigger"@),
        ),
{
    let r = c.remedies[i].1;
    let l = link(source, scoped_name(r.name, r.phases[j].name), "phase breach trigger"@);
    lemma_phase_links_has(states, source, r, r.phases, j);
    lemma_remedies_links_has_phase(states, source, c.remedies, i, l);
    lemma_concat_contains(remedies_links(states, source, c.remedies), obligations_links(states, source, c.obligations), l);
    lemma_concat_contains(
        remedies_links(states, source, c.remedies) + obligations_links(states, source, c.obligations),
        anchors_links(states, c, source, breach_anchors(c.terms)),
        l,
    );
}

proof fn lemma_remedies_links_has_phase(
    states: Seq<(Seq<char>, ObligationState)>,
    source: Seq<char>,
    rs: Seq<(Seq<char>, RemedyView)>,
    i: int,
    l: LinkView,
)
    requires
        0 <= i < rs.len(),
        phase_links(states, source, rs[i].1, rs[i].1.phases).contains(l),
    ensures
        remedies_links(states, source, rs).contains(l),
    decreases rs.len(),
{
    let d = rs.drop_last();
    let r = rs.last().1;
    lemma_concat_contains(remedies_links(states, source, d), remedy_links(states, source, r), l);
    if i < rs.len() - 1 {
        assert(d[i] == rs[i]);
        lemma_remedies_links_has_phase(states, source, d, i, l);
    } else {
        let w1 = link_if(dep(states, source, r.breach_target, None), link(source, r.name, "remedy breach target"@));
        let w2 = link_if(
            opt_cond_depends(states, r.condition, source, Some(r.name)),
            link(source, r.name, "remedy condition depends on satisfied(...)"@),
        );
        lemma_concat_contains(w1 + w2, phase_links(states, source, r, r.phases), l);
    }
}

/// A phase is triggered by `source`: the link to it names the phase's
/// scoped key, and its breach trigger names `source`.
pub open spec fn phase_triggered_by(
    states: Seq<(Seq<char>, ObligationState)>,
    c: ContractView,
    source: Seq<char>,
    to: Seq<char>,
) -> bool {
    exists|i: int, j: int|
        0 <= i < c.remedies.len() && 0 <= j < c.remedies[i].1.phases.len()
            && to == #[trigger] scoped_name(c.remedies[i].1.name, c.remedies[i].1.phases[j].name)
            && dep(states, source, phase_trigger(c.remedies[i].1, c.remedies[i].1.phases[j]), Some(c.remedies[i].1.name))
}

proof fn lemma_phase_links_only(
    states: Seq<(Seq<char>, ObligationState)>,
    source: Seq<char>,
    r: RemedyView,
    ps: Seq<PhaseView>,
    l: LinkView,
) -> (j: int)
    requires
        phase_links(states, source, r, ps).contains(l),
        l.reason == "phase breach trigger"@,
    ensures
        0 <= j < ps.len(),
        l.to == scoped_name(r.name, ps[j].name),
        dep(states, source, phase_trigger(r, ps[j]), Some(r.name)),
    decreases ps.len(),
{
    let d = ps.drop_last();
    let p = ps.last();
    let key = scoped_name(r.name, p.name);
    let w1 = link_if(dep(states, source, phase_trigger(r, p), Some(r.name)), link(source, key, "phase breach trigger"@));
    let w2 = link_if(opt_cond_depends(states, p.condition, source, Some(r.name)), link(source, key, "phase condition depends on satisfied(...)"@));
    lemma_concat_contains(phase_links(states, source, r, d) + w1, w2, l);
    lemma_concat_contains(phase_links(states, source, r, d), w1, l);
    lemma_link_if_contains(dep(states, source, phase_trigger(r, p), Some(r.name)), link(source, key, "phase breach trigger"@), l);
    lemma_link_if_contains(opt_cond_depends(states, p.condition, source, Some(r.name)), link(source, key, "phase condition depends on satisfied(...)"@), l);
    if phase_links(states, source, r, d).contains(l) {
        let j = lemma_phase_links_only(states, source, r, d, l);
        assert(d[j] == ps[j]);
        j
    } else {
        if w2.contains(l) {
            reveal_strlit("phase breach trigger");
            reveal_strlit("phase condition depends on satisfied(...)");
            assert(("phase condition depends on satisfied(...)"@)[6] != ("phase breach trigger"@)[6]);
        }
        (ps.len() - 1) as int
    }
}

proof fn lemma_remedies_links_only(
    states: Seq<(Seq<char>, ObligationState)>,
    source: Seq<char>,
    rs: Seq<(Seq<char>, RemedyView)>,
    l: LinkView,
) -> (ij: (int, int))
    requires
        remedies_links(states, source, rs).contains(l),
        l.reason == "phase breach trigger"@,
    ensures
        0 <= ij.0 < rs.len(),
        0 <= ij.1 < rs[ij.0].1.phases.len(),
        l.to == scoped_name(rs[ij.0].1.name, rs[ij.0].1.phases[ij.1].name),
        dep(states, source, phase_trigger(rs[ij.0].1, rs[ij.0].1.phases[ij.1]), Some(rs[ij.0].1.name)),
    decreases rs.len(),
{
    let d = rs.drop_last();
    let r = rs.last().1;
    lemma_concat_contains(remedies_links(states, source, d), remedy_links(states, source, r), l);
    if remedies_links(states, source, d).contains(l) {
        let ij = lemma_remedies_links_only(states, source, d, l);
        assert(d[ij.0] == rs[ij.0]);
        ij
    } else {
        let w1 = link_if(dep(states, source, r.breach_target, None), link(source, r.name, "remedy breach target"@));
        let w2 = link_if(
            opt_cond_depends(states, r.condition, source, Some(r.name)),
            link(source, r.name, "remedy condition depends on satisfied(...)"@),
        );
        lemma_concat_contains(w1 + w2, phase_links(states, source, r, r.phases), l);
        lemma_concat_contains(w1, w2, l);
        lemma_link_if_contains(dep(states, source, r.breach_target, None), link(source, r.name, "remedy breach target"@), l);
        lemma_link_if_contains(
            opt_cond_depends(states, r.condition, source, Some(r.name)),
            link(source, r.name, "remedy condition depends on satisfied(...)"@),
            l,
        );
        if w1.contains(l) || w2.contains(l) {
            reveal_strlit("phase breach trigger");
            reveal_strlit("remedy breach target");
            reveal_strlit("remedy condition depends on satisfied(...)");
            assert(("remedy breach target"@)[0] != ("phase breach trigger"@)[0]);
            assert(("remedy condition depends on satisfied(...)"@)[0] != ("phase breach trigger"@)[0]);
        }
        let j = lemma_phase_links_only(states, source, r, r.phases, l);
        ((rs.len() - 1) as int, j)
    }
}

proof fn lemma_obligations_links_has(
    states: Seq<(Seq<char>, ObligationState)>,
    source: Seq<char>,
    os: Seq<(Seq<char>, ObligationView)>,
    i: int,
)
    requires
        0 <= i < os.len(),
        opt_cond_depends(states, os[i].1.condition, source, None),
    ensures
        obligations_links(states, source, os).contains(
            link(source, os[i].1.name, "obligation condition depends on satisfied(...)"@),
        ),
    decreases os.len(),
{
    let l = link(source, os[i].1.name, "obligation condition depends on satisfied(...)"@);
    let d = os.drop_last();
    let o = os.last().1;
    let w = link_if(opt_cond_depends(states, o.condition, source, None), link(source, o.name, "obligation condition depends on satisfied(...)"@));
    lemma_concat_contains(obligations_links(states, source, d), w, l);
    if i < os.len() - 1 {
        assert(d[i] == os[i]);
        lemma_obligations_links_has(states, source, d, i);
    } else {
        assert(w[0] == l);
    }
}

/// An obligation whose condition holds a `satisfied(...)` atom naming
/// `source`, anywhere under `and` or `or`, is a direct effect of a breach of
/// `source`.
pub proof fn lemma_obligation_condition_linked(
    states: Seq<(Seq<char>, ObligationState)>,
    c: ContractView,
    source: Seq<char>,
    i: int,
    k: int,
)
    requires
        0 <= i < c.obligations.len(),
        c.obligations[i].1.condition matches Some(e) && 0 <= k < satisfied_atoms(e).len()
            && dep(states, source, satisfied_atoms(e)[k], None),
    ensures
        direct_links(states, c, source).contains(
            link(source, c.obligations[i].1.name, "obligation condition depends on satisfied(...)"@),
        ),
{
    let e = c.obligations[i].1.condition->0;
    lemma_cond_depends_atoms(states, e, source, None);
    let l = link(source, c.obligations[i].1.name, "obligation condition depends on satisfied(...)"@);
    lemma_obligations_links_has(states, source, c.obligations, i);
    lemma_concat_contains(remedies_links(states, source, c.remedies), obligations_links(states, source, c.obligations), l);
    lemma_concat_contains(
        remedies_links(states, source, c.remedies) + obligations_links(states, source, c.obligations),
        anchors_links(states, c, source, breach_anchors(c.terms)),
        l,
    );
}

/// Only phases are linked for a breach trigger: a link so marked goes to a
/// phase whose breach trigger names `source`.
pub proof fn lemma_phase_trigger_only(
    states: Seq<(Seq<char>, ObligationState)>,
    c: ContractView,
    source: Seq<char>,
    l: LinkView,
)
    requires
        direct_links(states, c, source).contains(l),
        l.reason == "phase breach trigger"@,
    ensures
        phase_triggered_by(states, c, source, l.to),
{
    let a = remedies_links(states, source, c.remedies);
    let b = obligations_links(states, source, c.obligations);
    let t = anchors_links(states, c, source, breach_anchors(c.terms));
    lemma_concat_contains(a + b, t, l);
    lemma_concat_contains(a, b, l);
    lemma_obligations_links_from(states, source, c.obligations);
    lemma_anchors_links_from(states, c, source, breach_anchors(c.terms));
    if a.contains(l) {
        let ij = lemma_remedies_links_only(states, source, c.remedies, l);
        assert(l.to == scoped_name(c.remedies[ij.0].1.name, c.remedies[ij.0].1.phases[ij.1].name));
    } else if b.contains(l) {
        lemma_obligations_reason(states, source, c.obligations, l);
        reveal_strlit("phase breach trigger");
        reveal_strlit("obligation condition depends on satisfied(...)");
        assert(("obligation condition depends on satisfied(...)"@)[0] != ("phase breach trigger"@)[0]);
    } else {
        lemma_anchors_reason(states, c, source, breach_anchors(c.terms), l);
        let tn = choose|tn: Seq<char>| l.reason == #[trigger] term_reason(tn);
        reveal_strlit("phase breach trigger");
        reveal_strlit("due date anchored by term '");
        assert(term_reason(tn)[0] == ("due date anchored by term '"@)[0]);
        assert(term_reason(tn)[0] != ("phase breach trigger"@)[0]);
    }
}

proof fn lemma_obligations_reason(states: Seq<(Seq<char>, ObligationState)>, source: Seq<char>, os: Seq<(Seq<char>, ObligationView)>, l: LinkView)
    requires
        obligations_links(states, source, os).contains(l),
    ensures
        l.reason == "obligation condition depends on satisfied(...)"@,
    decreases os.len(),
{
    let d = os.drop_last();
    let o = os.last().1;
    let w = link_if(opt_cond_depends(states, o.condition, source, None), link(source, o.name, "obligation condition depends on satisfied(...)"@));
    lemma_concat_contains(obligations_links(states, source, d), w, l);
    lemma_link_if_contains(opt_cond_depends(states, o.condition, source, None), link(source, o.name, "obligation condition depends on satisfied(...)"@), l);
    if obligations_links(states, source, d).contains(l) {
        lemma_obligations_reason(states, source, d, l);
    }
}

proof fn lemma_anchored_reason(
    states: Seq<(Seq<char>, ObligationState)>,
    source: Seq<char>,
    target: Seq<char>,
    t: Seq<char>,
    items: Seq<(Seq<char>, Option<Seq<char>>)>,
    l: LinkView,
)
    requires
        anchored_links(states, source, target, t, items).contains(l),
    ensures
        l.reason == term_reason(t),
    decreases items.len(),
{
    let it = items.last();
    let w = link_if(dep(states, source, target, it.1), link(source, it.0, term_reason(t)));
    lemma_concat_contains(anchored_links(states, source, target, t, items.drop_last()), w, l);
    lemma_link_if_contains(dep(states, source, target, it.1), link(source, it.0, term_reason(t)), l);
    if anchored_links(states, source, target, t, items.drop_last()).contains(l) {
        lemma_anchored_reason(states, source, target, t, items.drop_last(), l);
    }
}

proof fn lemma_anchors_reason(
    states: Seq<(Seq<char>, ObligationState)>,
    c: ContractView,
    source: Seq<char>,
    anchors: Seq<(Seq<char>, Seq<char>)>,
    l: LinkView,
)
    requires
        anchors_links(states, c, source, anchors).contains(l),
    ensures
        exists|tn: Seq<char>| l.reason == #[trigger] term_reason(tn),
    decreases anchors.len(),
{
    let a = anchors.last();
    lemma_concat_contains(
        anchors_links(states, c, source, anchors.drop_last()),
        anchored_links(states, source, a.1, a.0, items_due_on(c, a.0)),
        l,
    );
    if anchors_links(states, c, source, anchors.drop_last()).contains(l) {
        lemma_anchors_reason(states, c, source, anchors.drop_last(), l);
    } else {
        lemma_anchored_reason(states, source, a.1, a.0, items_due_on(c, a.0), l);
    }
}

// ---------------------------------------------------------------------------
// Order of links, and the trace itself
// ---------------------------------------------------------------------------

/// Links ordered by source, then target, then reason.
pub open spec fn link_lt(a: LinkView, b: LinkView) -> bool {
    ||| seq_lt(a.from, b.from)
    ||| (a.from == b.from && seq_lt(a.to, b.to))
    ||| (a.from == b.from && a.to == b.to && seq_lt(a.reason, b.reason))
}

/// Each link orders strictly before the next.
pub open spec fn links_sorted(s: Seq<LinkView>) -> bool {
    forall|i: int, j: int| 0 <= i < j < s.len() ==> link_lt(#[trigger] s[i], #[trigger] s[j])
}

pub proof fn lemma_link_lt_irreflexive(a: LinkView)
    ensures
        !link_lt(a, a),
{
    lemma_seq_lt_irreflexive(a.from);
    lemma_seq_lt_irreflexive(a.to);
    lemma_seq_lt_irreflexive(a.reason);
}

pub proof fn lemma_link_lt_transitive(a: LinkView, b: LinkView, c: LinkView)
    requires
        link_lt(a, b),
        link_lt(b, c),
    ensures
        link_lt(a, c),
{
    if seq_lt(a.from, b.from) && seq_lt(b.from, c.from) {
        lemma_seq_lt_transitive(a.from, b.from, c.from);
    }
    if a.from == b.from && b.from == c.from {
        if seq_lt(a.to, b.to) && seq_lt(b.to, c.to) {
            lemma_seq_lt_transitive(a.to, b.to, c.to);
        }
        if a.to == b.to && b.to == c.to && seq_lt(a.reason, b.reason) && seq_lt(b.reason, c.reason) {
            lemma_seq_lt_transitive(a.reason, b.reason, c.reason);
        }
    }
}

pub proof fn lemma_link_lt_total(a: LinkView, b: LinkView)
    ensures
        a == b || link_lt(a, b) || link_lt(b, a),
{
    lemma_seq_lt_total(a.from, b.from);
    lemma_seq_lt_total(a.to, b.to);
    lemma_seq_lt_total(a.reason, b.reason);
}

pub proof fn lemma_link_lt_asymmetric(a: LinkView, b: LinkView)
    ensures
        !(link_lt(a, b) && link_lt(b, a)),
{
    if link_lt(a, b) && link_lt(b, a) {
        lemma_link_lt_transitive(a, b, a);
        lemma_link_lt_irreflexive(a);
    }
}

fn copy_link(l: &CascadeLink) -> (r: CascadeLink)
    ensures
        r@ == l@,
{
    CascadeLink { from: l.from.clone(), to: l.to.clone(), reason: l.reason.clone() }
}

fn link_less(a: &CascadeLink, b: &CascadeLink) -> (r: bool)
    ensures
        r == link_lt(a@, b@),
{
    if text_lt(a.from.as_str(), b.from.as_str()) {
        return true;
    }
    if !text_eq(a.from.as_str(), b.from.as_str()) {
        return false;
    }
    if text_lt(a.to.as_str(), b.to.as_str()) {
        return true;
    }
    if !text_eq(a.to.as_str(), b.to.as_str()) {
        return false;
    }
    text_lt(a.reason.as_str(), b.reason.as_str())
}

fn link_same(a: &CascadeLink, b: &CascadeLink) -> (r: bool)
    ensures
        r == (a@ == b@),
{
    text_eq(a.from.as_str(), b.from.as_str()) && text_eq(a.to.as_str(), b.to.as_str()) && text_eq(
        a.reason.as_str(),
        b.reason.as_str(),
    )
}

/// Adds `l` to the sorted links unless it is there.
fn insert_link(out: &mut Vec<CascadeLink>, l: CascadeLink)
    requires
        links_sorted(views(old(out)@)),
    ensures
        links_sorted(views(final(out)@)),
        forall|x: LinkView| views(final(out)@).contains(x) <==> (views(old(out)@).contains(x) || x == l@),
{
    let ghost before = views(out@);
    let mut p: usize = 0;
    while p < out.len()
        invariant
            before == views(out@),
            links_sorted(before),
            p <= out@.len(),
            forall|i: int| 0 <= i < p ==> link_lt(#[trigger] before[i], l@),
        ensures
            p <= out@.len(),
            forall|i: int| 0 <= i < p ==> link_lt(#[trigger] before[i], l@),
            p < out@.len() ==> !link_lt(before[p as int], l@),
        decreases out@.len() - p,
    {
        if !link_less(&out[p], &l) {
            break;
        }
        p = p + 1;
    }
    if p < out.len() && link_same(&out[p], &l) {
        proof {
            assert(before[p as int] == l@);
            assert forall|x: LinkView| views(out@).contains(x) <==> (before.contains(x) || x == l@) by {
                if x == l@ {
                    assert(before[p as int] == x);
                }
            }
        }
        return;
    }
    let ghost lv = l@;
    out.insert(p, l);
    proof {
        let after = views(out@);
        assert(after =~= before.insert(p as int, lv));
        if p < before.len() {
            assert(!link_lt(before[p as int], lv));
            assert(before[p as int] != lv);
            lemma_link_lt_total(before[p as int], lv);
        }
        assert forall|a: int, b: int| 0 <= a < b < after.len() implies link_lt(#[trigger] after[a], #[trigger] after[b]) by {
            if b < p {
                assert(after[a] == before[a] && after[b] == before[b]);
            } else if b == p {
                assert(after[a] == before[a]);
            } else if a < p {
                assert(after[b] == before[b - 1]);
                assert(after[a] == before[a]);
                if b - 1 > p {
                    lemma_link_lt_transitive(lv, before[p as int], before[b - 1]);
                }
                lemma_link_lt_transitive(before[a], lv, before[b - 1]);
            } else if a == p {
                assert(after[b] == before[b - 1]);
                if b - 1 > p {
                    lemma_link_lt_transitive(lv, before[p as int], before[b - 1]);
                }
            } else {
                assert(after[a] == before[a - 1]);
                assert(after[b] == before[b - 1]);
            }
        }
        assert forall|x: LinkView| after.contains(x) <==> (before.contains(x) || x == lv) by {
            if after.contains(x) {
                let k = choose|k: int| 0 <= k < after.len() && #[trigger] after[k] == x;
                if k < p {
                    assert(before[k] == x);
                } else if k > p {
                    assert(before[k - 1] == x);
                }
            }
            if before.contains(x) {
                let k = choose|k: int| 0 <= k < before.len() && #[trigger] before[k] == x;
                if k < p {
                    assert(after[k] == x);
                } else {
                    assert(after[k + 1] == x);
                }
            }
            if x == lv {
                assert(after[p as int] == x);
            }
        }
    }
}

fn contains_text(v: &Vec<String>, x: &str) -> (b: bool)
    ensures
        b == crate::text::texts(v@).contains(x@),
{
    let mut i: usize = 0;
    while i < v.len()
        invariant
            i <= v@.len(),
            forall|j: int| 0 <= j < i ==> crate::text::texts(v@)[j] != x@,
        decreases v@.len() - i,
    {
        if text_eq(v[i].as_str(), x) {
            proof {
                assert(crate::text::texts(v@)[i as int] == x@);
            }
            return true;
        }
        i = i + 1;
    }
    false
}

/// How many entries of `u` are not in `r`.
pub open spec fn count_not_in(u: Seq<Seq<char>>, r: Seq<Seq<char>>) -> nat
    decreases u.len(),
{
    if u.len() == 0 {
        0
    } else {
        count_not_in(u.drop_last(), r) + if r.contains(u.last()) { 0nat } else { 1nat }
    }
}

pub proof fn lemma_count_not_in(u: Seq<Seq<char>>, r: Seq<Seq<char>>, x: Seq<char>)
    requires
        !r.contains(x),
    ensures
        count_not_in(u, r.push(x)) <= count_not_in(u, r),
        u.contains(x) ==> count_not_in(u, r.push(x)) < count_not_in(u, r),
    decreases u.len(),
{
    if u.len() > 0 {
        let d = u.drop_last();
        lemma_count_not_in(d, r, x);
        let y = u.last();
        if r.push(x).contains(y) && !r.contains(y) {
            let k = choose|k: int| 0 <= k < r.push(x).len() && #[trigger] r.push(x)[k] == y;
            if k < r.len() {
                assert(r[k] == y);
            }
        }
        if r.contains(y) {
            let k = choose|k: int| 0 <= k < r.len() && #[trigger] r[k] == y;
            assert(r.push(x)[k] == y);
        }
        if u.contains(x) && !d.contains(x) {
            let k = choose|k: int| 0 <= k < u.len() && #[trigger] u[k] == x;
            if k < u.len() - 1 {
                assert(d[k] == x);
            }
            assert(y == x);
            assert(r.push(x)[r.len() as int] == x);
        }
    }
}

pub proof fn lemma_push_contains(s: Seq<Seq<char>>, y: Seq<char>, x: Seq<char>)
    ensures
        s.push(y).contains(x) <==> (s.contains(x) || x == y),
{
    if s.push(y).contains(x) {
        let k = choose|k: int| 0 <= k < s.push(y).len() && #[trigger] s.push(y)[k] == x;
        if k < s.len() {
            assert(s[k] == x);
        }
    }
    if s.contains(x) {
        let k = choose|k: int| 0 <= k < s.len() && #[trigger] s[k] == x;
        assert(s.push(y)[k] == x);
    }
    if x == y {
        assert(s.push(y)[s.len() as int] == x);
    }
}

/// Records the direct effects of `source`: each joins the links, and its
/// target joins the queue unless it was expanded already.
fn add_links(
    direct: &Vec<CascadeLink>,
    expanded: &Vec<String>,
    queue: &mut Vec<String>,
    out: &mut Vec<CascadeLink>,
    Ghost(st): Ghost<Seq<(Seq<char>, ObligationState)>>,
    Ghost(cv): Ghost<ContractView>,
    Ghost(r): Ghost<Seq<char>>,
    Ghost(source): Ghost<Seq<char>>,
)
    requires
        views(direct@) == direct_links(st, cv, source),
        reachable(st, cv, r, source),
        links_sorted(views(old(out)@)),
    ensures
        links_sorted(views(final(out)@)),
        final(queue)@.len() >= old(queue)@.len(),
        crate::text::texts(final(queue)@).take(old(queue)@.len() as int) == crate::text::texts(old(queue)@),
        forall|j: int| old(queue)@.len() <= j < final(queue)@.len() ==> reachable(st, cv, r, #[trigger] crate::text::texts(final(queue)@)[j])
            && all_names(cv).contains(crate::text::texts(final(queue)@)[j]),
        forall|x: LinkView| #[trigger] views(final(out)@).contains(x) <==> (views(old(out)@).contains(x) || direct_links(st, cv, source).contains(x)),
        forall|l: LinkView| #[trigger] direct_links(st, cv, source).contains(l) ==> (crate::text::texts(expanded@).contains(l.to) || exists|j: int|
            old(queue)@.len() <= j < final(queue)@.len() && #[trigger] crate::text::texts(final(queue)@)[j] == l.to),
{
    let ghost dl = views(direct@);
    let ghost q0 = crate::text::texts(queue@);
    let ghost o0 = views(out@);
    let mut k: usize = 0;
    while k < direct.len()
        invariant
            dl == views(direct@),
            dl == direct_links(st, cv, source),
            reachable(st, cv, r, source),
            k <= dl.len(),
            q0 == crate::text::texts(old(queue)@),
            o0 == views(old(out)@),
            links_sorted(views(out@)),
            queue@.len() >= q0.len(),
            crate::text::texts(queue@).take(q0.len() as int) == q0,
            forall|j: int| q0.len() <= j < queue@.len() ==> reachable(st, cv, r, #[trigger] crate::text::texts(queue@)[j])
                && all_names(cv).contains(crate::text::texts(queue@)[j]),
            forall|x: LinkView| #[trigger] views(out@).contains(x) <==> (o0.contains(x) || dl.take(k as int).contains(x)),
            forall|l: LinkView| #[trigger] dl.take(k as int).contains(l) ==> (crate::text::texts(expanded@).contains(l.to) || exists|j: int|
                q0.len() <= j < queue@.len() && #[trigger] crate::text::texts(queue@)[j] == l.to),
        decreases dl.len() - k,
    {
        let l = copy_link(&direct[k]);
        let ghost lv = l@;
        proof {
            assert(dl[k as int] == lv);
            assert(dl.contains(lv));
            lemma_reach_step(st, cv, r, source, lv);
            lemma_direct_targets(st, cv, source, lv);
        }
        let ghost qb = crate::text::texts(queue@);
        let known = contains_text(expanded, l.to.as_str());
        if !known {
            queue.push(l.to.clone());
            proof {
                assert(crate::text::texts(queue@) =~= qb.push(lv.to));
                assert(crate::text::texts(queue@).take(q0.len() as int) =~= qb.take(q0.len() as int));
            }
        }
        let ghost ob = views(out@);
        insert_link(out, l);
        proof {
            let qn = crate::text::texts(queue@);
            assert(dl.take(k + 1) =~= dl.take(k as int).push(lv));
            assert forall|x: LinkView| #[trigger] views(out@).contains(x) <==> (o0.contains(x) || dl.take(k + 1).contains(x)) by {
                if dl.take(k + 1).contains(x) && x != lv {
                    let m = choose|m: int| 0 <= m < dl.take(k + 1).len() && #[trigger] dl.take(k + 1)[m] == x;
                    assert(dl.take(k as int)[m] == x);
                }
                if dl.take(k as int).contains(x) {
                    let m = choose|m: int| 0 <= m < dl.take(k as int).len() && #[trigger] dl.take(k as int)[m] == x;
                    assert(dl.take(k + 1)[m] == x);
                }
                if x == lv {
                    assert(dl.take(k + 1)[k as int] == x);
                }
            }
            assert forall|j: int| q0.len() <= j < queue@.len() implies reachable(st, cv, r, #[trigger] crate::text::texts(queue@)[j])
                && all_names(cv).contains(crate::text::texts(queue@)[j]) by {
                if j < qb.len() {
                    assert(qn[j] == qb[j]);
                }
            }
            assert forall|l2: LinkView| #[trigger] dl.take(k + 1).contains(l2) implies (crate::text::texts(expanded@).contains(l2.to) || exists|j: int|
                q0.len() <= j < queue@.len() && #[trigger] crate::text::texts(queue@)[j] == l2.to) by {
                if l2 == lv {
                    if !known {
                        assert(qn[qb.len() as int] == l2.to);
                    }
                } else {
                    let m = choose|m: int| 0 <= m < dl.take(k + 1).len() && #[trigger] dl.take(k + 1)[m] == l2;
                    assert(dl.take(k as int)[m] == l2);
                    assert(dl.take(k as int).contains(l2));
                    if !crate::text::texts(expanded@).contains(l2.to) {
                        let j = choose|j: int| q0.len() <= j < qb.len() && #[trigger] qb[j] == l2.to;
                        assert(qn[j] == qb[j]);
                    }
                }
            }
        }
        k = k + 1;
    }
    proof {
        assert(dl.take(k as int) =~= dl);
    }
}

/// Traces the effects of a breach of `breached_item` (resolved to a state
/// key): every direct effect of every item the breach reaches, each once,
/// ordered by source, target and reason.
pub fn trace_cascade(c: &ContractDef, states: &NameMap<ObligationState>, breached_item: &str) -> (res: BreachCascade)
    ensures
        res.root@ == resolve_key(states@, breached_item@, None),
        links_sorted(views(res.links@)),
        forall|l: LinkView| views(res.links@).contains(l) <==> in_cascade(states@, c@, res.root@, l),
{
    let root = resolve_in(states, breached_item, None);
    let ghost r = root@;
    let ghost st = states@;
    let ghost cv = c@;
    let ghost u = all_names(cv).push(r);
    let mut queue: Vec<String> = Vec::new();
    queue.push(root.clone());
    let mut head: usize = 0;
    let mut expanded: Vec<String> = Vec::new();
    let mut out: Vec<CascadeLink> = Vec::new();
    proof {
        lemma_reach_root(st, cv, r);
        assert(crate::text::texts(queue@)[0] == r);
        assert(u[u.len() - 1] == r);
    }
    while head < queue.len()
        invariant
            r == root@,
            st == states@,
            cv == c@,
            u == all_names(cv).push(r),
            queue@.len() >= 1,
            crate::text::texts(queue@)[0] == r,
            head <= queue@.len(),
            head == 0 ==> expanded@.len() == 0,
            head > 0 ==> crate::text::texts(expanded@).contains(r),
            forall|j: int| 0 <= j < queue@.len() ==> reachable(st, cv, r, #[trigger] crate::text::texts(queue@)[j])
                && u.contains(crate::text::texts(queue@)[j]),
            forall|x: Seq<char>| #[trigger] crate::text::texts(expanded@).contains(x) ==> reachable(st, cv, r, x),
            forall|s: Seq<char>, l: LinkView|
                crate::text::texts(expanded@).contains(s) && #[trigger] direct_links(st, cv, s).contains(l) ==> views(out@).contains(l)
                    && (crate::text::texts(expanded@).contains(l.to) || exists|j: int|
                    head <= j < queue@.len() && #[trigger] crate::text::texts(queue@)[j] == l.to),
            forall|l: LinkView| #[trigger] views(out@).contains(l) ==> exists|s: Seq<char>|
                crate::text::texts(expanded@).contains(s) && #[trigger] direct_links(st, cv, s).contains(l),
            links_sorted(views(out@)),
        decreases count_not_in(u, crate::text::texts(expanded@)), queue@.len() - head,
    {
        let source = queue[head].clone();
        let ghost sv = source@;
        let ghost old_head = head;
        let ghost eb = crate::text::texts(expanded@);
        let ghost qb = crate::text::texts(queue@);
        let ghost ob = views(out@);
        proof {
            assert(qb[head as int] == sv);
        }
        head = head + 1;
        if contains_text(&expanded, source.as_str()) {
            proof {
                assert forall|s: Seq<char>, l: LinkView|
                    eb.contains(s) && #[trigger] direct_links(st, cv, s).contains(l) implies views(out@).contains(l)
                        && (eb.contains(l.to) || exists|j: int| head <= j < queue@.len() && #[trigger] qb[j] == l.to) by {
                    if !eb.contains(l.to) {
                        let j = choose|j: int| old_head <= j < qb.len() && #[trigger] qb[j] == l.to;
                        if j == old_head {
                            assert(l.to == sv);
                        }
                    }
                }
            }
            continue;
        }
        proof {
            lemma_count_not_in(u, eb, sv);
        }
        expanded.push(source.clone());
        let ghost en = crate::text::texts(expanded@);
        proof {
            assert(en =~= eb.push(sv));
            assert forall|x: Seq<char>| en.contains(x) <==> (eb.contains(x) || x == sv) by {
                lemma_push_contains(eb, sv, x);
            }
        }
        let direct = direct_cascade_links_from(c, states, source.as_str());
        add_links(&direct, &expanded, &mut queue, &mut out, Ghost(st), Ghost(cv), Ghost(r), Ghost(sv));
        proof {
            let qn = crate::text::texts(queue@);
            assert forall|j: int| 0 <= j < queue@.len() implies reachable(st, cv, r, #[trigger] qn[j]) && u.contains(qn[j]) by {
                if j < qb.len() {
                    assert(qn[j] == qn.take(qb.len() as int)[j]);
                    assert(qn[j] == qb[j]);
                } else {
                    lemma_push_contains(all_names(cv), r, qn[j]);
                }
            }
            assert(qn[0] == qn.take(qb.len() as int)[0]);
            assert forall|s: Seq<char>, l: LinkView|
                en.contains(s) && #[trigger] direct_links(st, cv, s).contains(l) implies views(out@).contains(l)
                    && (en.contains(l.to) || exists|j: int| head <= j < queue@.len() && #[trigger] qn[j] == l.to) by {
                if s == sv {
                    if !en.contains(l.to) {
                        assert(!eb.contains(l.to) || en.contains(l.to));
                    }
                } else {
                    assert(eb.contains(s));
                    assert(ob.contains(l));
                    if !eb.contains(l.to) {
                        let j = choose|j: int| old_head <= j < qb.len() && #[trigger] qb[j] == l.to;
                        if j == old_head {
                            assert(l.to == sv);
                        } else {
                            assert(qn[j] == qn.take(qb.len() as int)[j]);
                            assert(qn[j] == l.to);
                        }
                    }
                }
            }
            assert forall|l: LinkView| #[trigger] views(out@).contains(l) implies exists|s: Seq<char>|
                en.contains(s) && #[trigger] direct_links(st, cv, s).contains(l) by {
                if ob.contains(l) {
                    let s = choose|s: Seq<char>| eb.contains(s) && #[trigger] direct_links(st, cv, s).contains(l);
                    assert(en.contains(s));
                } else {
                    assert(direct_links(st, cv, sv).contains(l));
                    assert(en.contains(sv));
                }
            }
            if old_head == 0 {
                assert(sv == r);
            }
        }
    }
    let ghost e = crate::text::texts(expanded@);
    proof {
        assert(head > 0);
        assert forall|l: LinkView| views(out@).contains(l) <==> in_cascade(st, cv, r, l) by {
            if views(out@).contains(l) {
                let s = choose|s: Seq<char>| e.contains(s) && #[trigger] direct_links(st, cv, s).contains(l);
                assert(reachable(st, cv, r, s));
            }
            if in_cascade(st, cv, r, l) {
                let s = choose|s: Seq<char>| #[trigger] reachable(st, cv, r, s) && direct_links(st, cv, s).contains(l);
                assert forall|s2: Seq<char>, l2: LinkView| e.contains(s2) && #[trigger] direct_links(st, cv, s2).contains(l2) implies e.contains(l2.to) by {
                }
                lemma_closed_contains_reachable(st, cv, r, e, s);
            }
        }
    }
    BreachCascade { root, links: out }
}


/// Two sorted lists of links with the same links are equal.
pub proof fn lemma_links_sorted_unique(a: Seq<LinkView>, b: Seq<LinkView>)
    requires
        links_sorted(a),
        links_sorted(b),
        forall|x: LinkView| a.contains(x) <==> b.contains(x),
    ensures
        a == b,
    decreases a.len(),
{
    if a.len() == 0 {
        if b.len() > 0 {
            assert(b.contains(b[0]));
        }
        assert(a =~= b);
    } else {
        assert(a.contains(a[0]));
        assert(b.contains(b[0]));
        let j = choose|j: int| 0 <= j < b.len() && #[trigger] b[j] == a[0];
        let i = choose|i: int| 0 <= i < a.len() && #[trigger] a[i] == b[0];
        if j > 0 {
            assert(link_lt(b[0], b[j]));
            if i > 0 {
                assert(link_lt(a[0], a[i]));
                lemma_link_lt_asymmetric(a[0], b[0]);
            } else {
                lemma_link_lt_irreflexive(a[0]);
            }
        }
        assert(a[0] == b[0]);
        let a1 = a.drop_first();
        let b1 = b.drop_first();
        assert(links_sorted(a1)) by {
            assert forall|p: int, q: int| 0 <= p < q < a1.len() implies link_lt(#[trigger] a1[p], #[trigger] a1[q]) by {
                assert(a1[p] == a[p + 1]);
                assert(a1[q] == a[q + 1]);
            }
        }
        assert(links_sorted(b1)) by {
            assert forall|p: int, q: int| 0 <= p < q < b1.len() implies link_lt(#[trigger] b1[p], #[trigger] b1[q]) by {
                assert(b1[p] == b[p + 1]);
                assert(b1[q] == b[q + 1]);
            }
        }
        assert forall|x: LinkView| a1.contains(x) <==> b1.contains(x) by {
            if a1.contains(x) {
                let k = choose|k: int| 0 <= k < a1.len() && #[trigger] a1[k] == x;
                assert(a[k + 1] == x);
                assert(link_lt(a[0], a[k + 1]));
                lemma_link_lt_irreflexive(x);
                assert(b.contains(x));
                let m = choose|m: int| 0 <= m < b.len() && #[trigger] b[m] == x;
                assert(m != 0);
                assert(b1[m - 1] == x);
            }
            if b1.contains(x) {
                let k = choose|k: int| 0 <= k < b1.len() && #[trigger] b1[k] == x;
                assert(b[k + 1] == x);
                assert(link_lt(b[0], b[k + 1]));
                lemma_link_lt_irreflexive(x);
                assert(a.contains(x));
                let m = choose|m: int| 0 <= m < a.len() && #[trigger] a[m] == x;
                assert(m != 0);
                assert(a1[m - 1] == x);
            }
        }
        lemma_links_sorted_unique(a1, b1);
        assert(a =~= seq![a[0]] + a1);
        assert(b =~= seq![b[0]] + b1);
    }
}

/// A breach cascade is determined: two sorted lists that each hold exactly
/// the links of the cascade from `root` are the same list, so tracing the
/// same breach twice gives the same output.
pub proof fn lemma_cascade_deterministic(
    states: Seq<(Seq<char>, ObligationState)>,
    c: ContractView,
    root: Seq<char>,
    a: Seq<LinkView>,
    b: Seq<LinkView>,
)
    requires
        links_sorted(a),
        links_sorted(b),
        forall|l: LinkView| a.contains(l) <==> in_cascade(states, c, root, l),
        forall|l: LinkView| b.contains(l) <==> in_cascade(states, c, root, l),
    ensures
        a == b,
{
    lemma_links_sorted_unique(a, b);
}

/// Each effect in a cascade comes from the breached item itself or from an
/// item that another effect of the cascade reaches.
pub proof fn lemma_cascade_sources(
    states: Seq<(Seq<char>, ObligationState)>,
    c: ContractView,
    root: Seq<char>,
    l: LinkView,
)
    requires
        in_cascade(states, c, root, l),
    ensures
        l.from == root || exists|k: LinkView| #[trigger] in_cascade(states, c, root, k) && k.to == l.from,
{
    let s = choose|s: Seq<char>| #[trigger] reachable(states, c, root, s) && direct_links(states, c, s).contains(l);
    lemma_direct_links_from(states, c, s);
    let i = choose|i: int| 0 <= i < direct_links(states, c, s).len() && direct_links(states, c, s)[i] == l;
    assert(l.from == s);
    let p = choose|p: Seq<Seq<char>>| #[trigger] is_path(states, c, p) && p[0] == root && p.last() == s;
    if p.len() > 1 {
        let prev = p[p.len() - 2];
        assert(edge(states, c, p[p.len() - 2], p[p.len() - 2 + 1]));
        let k = choose|k: LinkView| #[trigger] direct_links(states, c, prev).contains(k) && k.to == s;
        let q = p.drop_last();
        assert forall|j: int| 0 <= j < q.len() - 1 implies #[trigger] edge(states, c, q[j], q[j + 1]) by {
            assert(q[j] == p[j]);
            assert(q[j + 1] == p[j + 1]);
            assert(edge(states, c, p[j], p[j + 1]));
        }
        assert(is_path(states, c, q));
        assert(q[0] == root && q.last() == prev);
        assert(reachable(states, c, root, prev));
        assert(in_cascade(states, c, root, k));
    }
}

} // verus!

