//! The contract model built by the VM and evaluated by the engine.

use vstd::prelude::*;
use crate::namemap::{NameMap, opt_view, first_index, lemma_first_index, entry_keys};
use crate::text::{seq_min, min_text};

verus! {

#[derive(Debug, Clone, Copy, PartialEq, Eq, Structural)]
pub enum ObligationState {
    Pending,
    Active,
    Satisfied,
    Breached,
    Remedied,
}

impl View for ObligationState {
    type V = ObligationState;

    open spec fn view(&self) -> ObligationState {
        *self
    }
}


/// Copies an optional string.
pub fn clone_opt_string(o: &Option<String>) -> (res: Option<String>)
    ensures
        opt_view(res) == opt_view(*o),
{
    match o {
        Some(s) => Some(s.clone()),
        None => None,
    }
}

// ---------------------------------------------------------------------------
// Parties and events
// ---------------------------------------------------------------------------

#[derive(Debug, PartialEq, Eq)]
pub struct Party {
    pub role: String,
    pub name: String,
}

pub struct PartyView {
    pub role: Seq<char>,
    pub name: Seq<char>,
}

impl View for Party {
    type V = PartyView;

    open spec fn view(&self) -> PartyView {
        PartyView { role: self.role@, name: self.name@ }
    }
}

impl Clone for Party {
    fn clone(&self) -> (res: Self)
        ensures
            res@ == self@,
    {
        Party { role: self.role.clone(), name: self.name.clone() }
    }
}

#[derive(Debug, PartialEq, Eq)]
pub enum EventDef {
    /// An event that occurs on a fixed day (a day number, see `calendar`).
    DateEvent(i64),
    /// An event that a party triggers.
    TriggeredEvent(String),
}

pub enum EventDefView {
    DateEvent(i64),
    TriggeredEvent(Seq<char>),
}

impl View for EventDef {
    type V = EventDefView;

    open spec fn view(&self) -> EventDefView {
        match self {
            EventDef::DateEvent(d) => EventDefView::DateEvent(*d),
            EventDef::TriggeredEvent(r) => EventDefView::TriggeredEvent(r@),
        }
    }
}

impl Clone for EventDef {
    fn clone(&self) -> (res: Self)
        ensures
            res@ == self@,
    {
        match self {
            EventDef::DateEvent(d) => EventDef::DateEvent(*d),
            EventDef::TriggeredEvent(r) => EventDef::TriggeredEvent(r.clone()),
        }
    }
}

#[derive(Debug, PartialEq, Eq)]
pub struct EventOccurrence {
    pub name: String,
    /// Day number of the occurrence.
    pub date: i64,
}

pub struct EventOccurrenceView {
    pub name: Seq<char>,
    pub date: i64,
}

impl View for EventOccurrence {
    type V = EventOccurrenceView;

    open spec fn view(&self) -> EventOccurrenceView {
        EventOccurrenceView { name: self.name@, date: self.date }
    }
}

impl Clone for EventOccurrence {
    fn clone(&self) -> (res: Self)
        ensures
            res@ == self@,
    {
        EventOccurrence { name: self.name.clone(), date: self.date }
    }
}

// ---------------------------------------------------------------------------
// Durations and calendars
// ---------------------------------------------------------------------------

#[derive(Debug, Clone, Copy, PartialEq, Eq, Structural)]
pub enum DurationUnit {
    CalendarDays,
    BusinessDays,
}

#[derive(Debug, Clone, Copy, PartialEq, Eq, Structural)]
pub struct Duration {
    pub amount: u32,
    pub unit: DurationUnit,
}

#[derive(Debug, Clone, Copy, PartialEq, Eq, PartialOrd, Ord, Hash, Structural)]
pub enum BusinessWeekday {
    Mon,
    Tue,
    Wed,
    Thu,
    Fri,
    Sat,
    Sun,
}

impl BusinessWeekday {
    /// Monday through Friday.
    pub open spec fn spec_standard() -> Seq<BusinessWeekday> {
        seq![
            BusinessWeekday::Mon,
            BusinessWeekday::Tue,
            BusinessWeekday::Wed,
            BusinessWeekday::Thu,
            BusinessWeekday::Fri,
        ]
    }

    /// The standard business week: Monday through Friday.
    pub fn standard_business_days() -> (res: Vec<BusinessWeekday>)
        ensures
            res@ == Self::spec_standard(),
    {
        let res = vec![
            BusinessWeekday::Mon,
            BusinessWeekday::Tue,
            BusinessWeekday::Wed,
            BusinessWeekday::Thu,
            BusinessWeekday::Fri,
        ];
        assert(res@ =~= Self::spec_standard());
        res
    }
}

#[derive(Debug, PartialEq, Eq)]
pub struct CalendarDef {
    pub id: String,
    pub jurisdiction: Option<String>,
    /// The weekdays on which business is done (order and repeats do not matter).
    pub business_weekdays: Vec<BusinessWeekday>,
    /// Day numbers of holidays (order and repeats do not matter).
    pub holidays: Vec<i64>,
}

pub struct CalendarView {
    pub id: Seq<char>,
    pub jurisdiction: Option<Seq<char>>,
    pub business_weekdays: Seq<BusinessWeekday>,
    pub holidays: Seq<i64>,
}

impl View for CalendarDef {
    type V = CalendarView;

    open spec fn view(&self) -> CalendarView {
        CalendarView {
            id: self.id@,
            jurisdiction: opt_view(self.jurisdiction),
            business_weekdays: self.business_weekdays@,
            holidays: self.holidays@,
        }
    }
}

impl Clone for CalendarDef {
    fn clone(&self) -> (res: Self)
        ensures
            res@ == self@,
    {
        let bw = self.business_weekdays.clone();
        let hs = self.holidays.clone();
        assert(bw@ =~= self.business_weekdays@);
        assert(hs@ =~= self.holidays@);
        CalendarDef {
            id: self.id.clone(),
            jurisdiction: clone_opt_string(&self.jurisdiction),
            business_weekdays: bw,
            holidays: hs,
        }
    }
}

impl CalendarDef {
    /// A calendar with the standard business week and no holidays.
    pub fn standard(id: &str) -> (res: Self)
        ensures
            res.id@ == id@,
            res.jurisdiction is None,
            res.business_weekdays@ == BusinessWeekday::spec_standard(),
            res.holidays@ == Seq::<i64>::empty(),
    {
        CalendarDef {
            id: String::from_str(id),
            jurisdiction: None,
            business_weekdays: BusinessWeekday::standard_business_days(),
            holidays: Vec::new(),
        }
    }

    /// The calendar has at least one business weekday.
    pub open spec fn has_business_weekday(&self) -> bool {
        self.business_weekdays@.len() > 0
    }
}

// ---------------------------------------------------------------------------
// Terms, conditions, obligations, remedies
// ---------------------------------------------------------------------------

#[derive(Debug, PartialEq, Eq)]
pub enum TermAnchor {
    Event(String),
    BreachOf(String),
}

pub enum TermAnchorView {
    Event(Seq<char>),
    BreachOf(Seq<char>),
}

impl View for TermAnchor {
    type V = TermAnchorView;

    open spec fn view(&self) -> TermAnchorView {
        match self {
            TermAnchor::Event(e) => TermAnchorView::Event(e@),
            TermAnchor::BreachOf(t) => TermAnchorView::BreachOf(t@),
        }
    }
}

impl Clone for TermAnchor {
    fn clone(&self) -> (res: Self)
        ensures
            res@ == self@,
    {
        match self {
            TermAnchor::Event(e) => TermAnchor::Event(e.clone()),
            TermAnchor::BreachOf(t) => TermAnchor::BreachOf(t.clone()),
        }
    }
}

#[derive(Debug, PartialEq, Eq)]
pub struct Term {
    pub name: String,
    pub duration: Duration,
    pub anchor: TermAnchor,
    pub calendar_ref: Option<String>,
}

pub struct TermView {
    pub name: Seq<char>,
    pub duration: Duration,
    pub anchor: TermAnchorView,
    pub calendar_ref: Option<Seq<char>>,
}

impl View for Term {
    type V = TermView;

    open spec fn view(&self) -> TermView {
        TermView {
            name: self.name@,
            duration: self.duration,
            anchor: self.anchor@,
            calendar_ref: opt_view(self.calendar_ref),
        }
    }
}

impl Clone for Term {
    fn clone(&self) -> (res: Self)
        ensures
            res@ == self@,
    {
        Term {
            name: self.name.clone(),
            duration: self.duration,
            anchor: self.anchor.clone(),
            calendar_ref: clone_opt_string(&self.calendar_ref),
        }
    }
}

#[derive(Debug, PartialEq, Eq)]
pub enum ConditionExpr {
    After(String),
    Before(String),
    Satisfied(String),
    Occurred(String),
    And(Box<ConditionExpr>, Box<ConditionExpr>),
    Or(Box<ConditionExpr>, Box<ConditionExpr>),
}

pub enum ConditionView {
    After(Seq<char>),
    Before(Seq<char>),
    Satisfied(Seq<char>),
    Occurred(Seq<char>),
    And(Box<ConditionView>, Box<ConditionView>),
    Or(Box<ConditionView>, Box<ConditionView>),
}

impl View for ConditionExpr {
    type V = ConditionView;

    open spec fn view(&self) -> ConditionView
        decreases self,
    {
        match self {
            ConditionExpr::After(e) => ConditionView::After(e@),
            ConditionExpr::Before(e) => ConditionView::Before(e@),
            ConditionExpr::Satisfied(e) => ConditionView::Satisfied(e@),
            ConditionExpr::Occurred(e) => ConditionView::Occurred(e@),
            ConditionExpr::And(l, r) => ConditionView::And(Box::new((**l).view()), Box::new((**r).view())),
            ConditionExpr::Or(l, r) => ConditionView::Or(Box::new((**l).view()), Box::new((**r).view())),
        }
    }
}

impl Clone for ConditionExpr {
    fn clone(&self) -> (res: Self)
        ensures
            res@ == self@,
        decreases self,
    {
        match self {
            ConditionExpr::After(e) => ConditionExpr::After(e.clone()),
            ConditionExpr::Before(e) => ConditionExpr::Before(e.clone()),
            ConditionExpr::Satisfied(e) => ConditionExpr::Satisfied(e.clone()),
            ConditionExpr::Occurred(e) => ConditionExpr::Occurred(e.clone()),
            ConditionExpr::And(l, r) => {
                let lc = (**l).clone();
                let rc = (**r).clone();
                ConditionExpr::And(Box::new(lc), Box::new(rc))
            },
            ConditionExpr::Or(l, r) => {
                let lc = (**l).clone();
                let rc = (**r).clone();
                ConditionExpr::Or(Box::new(lc), Box::new(rc))
            },
        }
    }
}

pub fn clone_opt_condition(o: &Option<ConditionExpr>) -> (res: Option<ConditionExpr>)
    ensures
        opt_view(res) == opt_view(*o),
{
    match o {
        Some(c) => Some(c.clone()),
        None => None,
    }
}

#[derive(Debug, PartialEq, Eq)]
pub enum DueDef {
    TermRef(String),
    InlineDuration { duration: Duration, anchor: String },
}

pub enum DueView {
    TermRef(Seq<char>),
    InlineDuration { duration: Duration, anchor: Seq<char> },
}

impl View for DueDef {
    type V = DueView;

    open spec fn view(&self) -> DueView {
        match self {
            DueDef::TermRef(t) => DueView::TermRef(t@),
            DueDef::InlineDuration { duration, anchor } => DueView::InlineDuration {
                duration: *duration,
                anchor: anchor@,
            },
        }
    }
}

impl Clone for DueDef {
    fn clone(&self) -> (res: Self)
        ensures
            res@ == self@,
    {
        match self {
            DueDef::TermRef(t) => DueDef::TermRef(t.clone()),
            DueDef::InlineDuration { duration, anchor } => DueDef::InlineDuration {
                duration: *duration,
                anchor: anchor.clone(),
            },
        }
    }
}

pub fn clone_opt_due(o: &Option<DueDef>) -> (res: Option<DueDef>)
    ensures
        opt_view(res) == opt_view(*o),
{
    match o {
        Some(d) => Some(d.clone()),
        None => None,
    }
}

#[derive(Debug, PartialEq, Eq)]
pub struct ObligationDef {
    pub name: String,
    pub party_role: Option<String>,
    pub action: Option<String>,
    pub due: Option<DueDef>,
    pub condition: Option<ConditionExpr>,
}

pub struct ObligationView {
    pub name: Seq<char>,
    pub party_role: Option<Seq<char>>,
    pub action: Option<Seq<char>>,
    pub due: Option<DueView>,
    pub condition: Option<ConditionView>,
}

impl View for ObligationDef {
    type V = ObligationView;

    open spec fn view(&self) -> ObligationView {
        ObligationView {
            name: self.name@,
            party_role: opt_view(self.party_role),
            action: opt_view(self.action),
            due: opt_view(self.due),
            condition: opt_view(self.condition),
        }
    }
}

impl Clone for ObligationDef {
    fn clone(&self) -> (res: Self)
        ensures
            res@ == self@,
    {
        ObligationDef {
            name: self.name.clone(),
            party_role: clone_opt_string(&self.party_role),
            action: clone_opt_string(&self.action),
            due: clone_opt_due(&self.due),
            condition: clone_opt_condition(&self.condition),
        }
    }
}

#[derive(Debug, PartialEq, Eq)]
pub struct PhaseDef {
    pub name: String,
    pub breach_target: Option<String>,
    pub party_role: Option<String>,
    pub action: Option<String>,
    pub due: Option<DueDef>,
    pub condition: Option<ConditionExpr>,
}

pub struct PhaseView {
    pub name: Seq<char>,
    pub breach_target: Option<Seq<char>>,
    pub party_role: Option<Seq<char>>,
    pub action: Option<Seq<char>>,
    pub due: Option<DueView>,
    pub condition: Option<ConditionView>,
}

impl View for PhaseDef {
    type V = PhaseView;

    open spec fn view(&self) -> PhaseView {
        PhaseView {
            name: self.name@,
            breach_target: opt_view(self.breach_target),
            party_role: opt_view(self.party_role),
            action: opt_view(self.action),
            due: opt_view(self.due),
            condition: opt_view(self.condition),
        }
    }
}

impl Clone for PhaseDef {
    fn clone(&self) -> (res: Self)
        ensures
            res@ == self@,
    {
        PhaseDef {
            name: self.name.clone(),
            breach_target: clone_opt_string(&self.breach_target),
            party_role: clone_opt_string(&self.party_role),
            action: clone_opt_string(&self.action),
            due: clone_opt_due(&self.due),
            condition: clone_opt_condition(&self.condition),
        }
    }
}

/// The views of a sequence of values.
pub open spec fn views<T: View>(s: Seq<T>) -> Seq<T::V> {
    s.map_values(|x: T| x@)
}

#[derive(Debug, PartialEq, Eq)]
pub struct RemedyDef {
    pub name: String,
    pub breach_target: String,
    pub party_role: Option<String>,
    pub action: Option<String>,
    pub due: Option<DueDef>,
    pub condition: Option<ConditionExpr>,
    pub phases: Vec<PhaseDef>,
}

pub struct RemedyView {
    pub name: Seq<char>,
    pub breach_target: Seq<char>,
    pub party_role: Option<Seq<char>>,
    pub action: Option<Seq<char>>,
    pub due: Option<DueView>,
    pub condition: Option<ConditionView>,
    pub phases: Seq<PhaseView>,
}

impl View for RemedyDef {
    type V = RemedyView;

    open spec fn view(&self) -> RemedyView {
        RemedyView {
            name: self.name@,
            breach_target: self.breach_target@,
            party_role: opt_view(self.party_role),
            action: opt_view(self.action),
            due: opt_view(self.due),
            condition: opt_view(self.condition),
            phases: views(self.phases@),
        }
    }
}

pub fn clone_phases(v: &Vec<PhaseDef>) -> (res: Vec<PhaseDef>)
    ensures
        views(res@) == views(v@),
        res@.len() == v@.len(),
{
    let mut res: Vec<PhaseDef> = Vec::new();
    let mut i: usize = 0;
    while i < v.len()
        invariant
            i <= v@.len(),
            res@.len() == i,
            forall|j: int| 0 <= j < i ==> (#[trigger] res@[j])@ == v@[j]@,
        decreases v@.len() - i,
    {
        res.push(v[i].clone());
        i = i + 1;
    }
    assert(views(res@) =~= views(v@));
    res
}

impl Clone for RemedyDef {
    fn clone(&self) -> (res: Self)
        ensures
            res@ == self@,
    {
        RemedyDef {
            name: self.name.clone(),
            breach_target: self.breach_target.clone(),
            party_role: clone_opt_string(&self.party_role),
            action: clone_opt_string(&self.action),
            due: clone_opt_due(&self.due),
            condition: clone_opt_condition(&self.condition),
            phases: clone_phases(&self.phases),
        }
    }
}


#[derive(Debug)]
pub struct ContractDef {
    pub parties: NameMap<Party>,
    pub events: NameMap<EventDef>,
    pub terms: NameMap<Term>,
    pub obligations: NameMap<ObligationDef>,
    pub remedies: NameMap<RemedyDef>,
}

pub struct ContractView {
    pub parties: Seq<(Seq<char>, PartyView)>,
    pub events: Seq<(Seq<char>, EventDefView)>,
    pub terms: Seq<(Seq<char>, TermView)>,
    pub obligations: Seq<(Seq<char>, ObligationView)>,
    pub remedies: Seq<(Seq<char>, RemedyView)>,
}

impl View for ContractDef {
    type V = ContractView;

    open spec fn view(&self) -> ContractView {
        ContractView {
            parties: self.parties@,
            events: self.events@,
            terms: self.terms@,
            obligations: self.obligations@,
            remedies: self.remedies@,
        }
    }
}

impl ContractDef {
    /// Every section names each of its items once.
    pub open spec fn wf(&self) -> bool {
        &&& self.parties.wf()
        &&& self.events.wf()
        &&& self.terms.wf()
        &&& self.obligations.wf()
        &&& self.remedies.wf()
    }

    /// A contract with no declarations.
    pub fn empty() -> (res: Self)
        ensures
            res.wf(),
            res.parties.keys().len() == 0,
            res.events.keys().len() == 0,
            res.terms.keys().len() == 0,
            res.obligations.keys().len() == 0,
            res.remedies.keys().len() == 0,
            res@ == (ContractView {
                parties: Seq::empty(),
                events: Seq::empty(),
                terms: Seq::empty(),
                obligations: Seq::empty(),
                remedies: Seq::empty(),
            }),
    {
        let res = ContractDef {
            parties: NameMap::new(),
            events: NameMap::new(),
            terms: NameMap::new(),
            obligations: NameMap::new(),
            remedies: NameMap::new(),
        };
        proof {
            res.parties.lemma_view();
            res.events.lemma_view();
            res.terms.lemma_view();
            res.obligations.lemma_view();
            res.remedies.lemma_view();
            assert(res.parties@ =~= Seq::empty());
            assert(res.events@ =~= Seq::empty());
            assert(res.terms@ =~= Seq::empty());
            assert(res.obligations@ =~= Seq::empty());
            assert(res.remedies@ =~= Seq::empty());
        }
        res
    }
}

impl Clone for ContractDef {
    fn clone(&self) -> (res: Self)
        ensures
            res@ == self@,
            res.wf() == self.wf(),
    {
        ContractDef {
            parties: self.parties.duplicate(),
            events: self.events.duplicate(),
            terms: self.terms.duplicate(),
            obligations: self.obligations.duplicate(),
            remedies: self.remedies.duplicate(),
        }
    }
}


#[derive(Debug)]
pub struct CalendarRegistry {
    pub default_calendar_id: String,
    pub calendars: NameMap<CalendarDef>,
}

pub struct RegistryView {
    pub default_calendar_id: Seq<char>,
    pub calendars: Seq<(Seq<char>, CalendarView)>,
}

impl View for CalendarRegistry {
    type V = RegistryView;

    open spec fn view(&self) -> RegistryView {
        RegistryView { default_calendar_id: self.default_calendar_id@, calendars: self.calendars@ }
    }
}

impl Clone for CalendarRegistry {
    fn clone(&self) -> (res: Self)
        ensures
            res@ == self@,
            res.wf() == self.wf(),
    {
        CalendarRegistry {
            default_calendar_id: self.default_calendar_id.clone(),
            calendars: self.calendars.duplicate(),
        }
    }
}

/// The standard calendar named `id`.
pub open spec fn standard_calendar_view(id: Seq<char>) -> CalendarView {
    CalendarView {
        id,
        jurisdiction: None,
        business_weekdays: BusinessWeekday::spec_standard(),
        holidays: Seq::empty(),
    }
}

/// The registry holding one standard calendar named `default`.
pub open spec fn default_registry_view() -> RegistryView {
    RegistryView {
        default_calendar_id: "default"@,
        calendars: seq![("default"@, standard_calendar_view("default"@))],
    }
}

/// What `normalize` makes of a registry: an empty registry becomes the
/// default registry; an empty or unknown default id becomes the least
/// calendar id.
pub open spec fn normalized(r: RegistryView) -> RegistryView {
    let ids = entry_keys(r.calendars);
    if r.calendars.len() == 0 {
        default_registry_view()
    } else if r.default_calendar_id.len() == 0 || !ids.contains(r.default_calendar_id) {
        RegistryView { default_calendar_id: seq_min(ids), calendars: r.calendars }
    } else {
        r
    }
}

/// Position of the first calendar whose id already occurs before it, if any.
pub open spec fn first_repeat(ids: Seq<Seq<char>>) -> Option<int> {
    if exists|j: int| 0 <= j < ids.len() && ids.take(j).contains(#[trigger] ids[j]) {
        Some(choose|j: int| 0 <= j < ids.len() && ids.take(j).contains(#[trigger] ids[j])
            && forall|k: int| 0 <= k < j ==> !ids.take(k).contains(#[trigger] ids[k]))
    } else {
        None
    }
}

impl CalendarRegistry {
    pub const PHASE2_DEFAULT_CALENDAR_ID: &'static str = "default";

    /// Every calendar id occurs once.
    pub open spec fn wf(&self) -> bool {
        self.calendars.wf()
    }

    /// Every calendar has at least one business weekday.
    pub open spec fn calendars_usable(&self) -> bool {
        forall|i: int| 0 <= i < self.calendars.vals().len()
            ==> (#[trigger] self.calendars.vals()[i]).has_business_weekday()
    }

    /// The registry holding one standard calendar named `default`.
    pub fn phase2_default() -> (res: Self)
        ensures
            res@ == default_registry_view(),
            res.wf(),
            res.calendars_usable(),
    {
        let cal = CalendarDef::standard("default");
        let mut calendars = NameMap::new();
        calendars.insert(String::from_str("default"), cal);
        let res = CalendarRegistry { default_calendar_id: String::from_str("default"), calendars };
        proof {
            res.calendars.lemma_view();
            assert(res.calendars@ =~= seq![("default"@, standard_calendar_view("default"@))]);
        }
        res
    }

    pub fn has_calendar(&self, id: &str) -> (b: bool)
        ensures
            b == self.calendars.has(id@),
    {
        self.calendars.contains_key(id)
    }

    pub fn default_calendar(&self) -> (res: Option<&CalendarDef>)
        ensures
            match res {
                Some(c) => self.calendars.lookup(self.default_calendar_id@) == Some(*c),
                None => self.calendars.lookup(self.default_calendar_id@) is None,
            },
    {
        self.calendars.get(self.default_calendar_id.as_str())
    }

    /// Normalizes the registry (see `normalized`).
    pub fn normalize(self) -> (res: Self)
        requires
            self.wf(),
        ensures
            res@ == normalized(self@),
            res.wf(),
            self.calendars_usable() ==> res.calendars_usable(),
    {
        proof {
            self.calendars.lemma_view();
        }
        if self.calendars.is_empty() {
            return Self::phase2_default();
        }
        if self.default_calendar_id.unicode_len() == 0
            || !self.calendars.contains_key(self.default_calendar_id.as_str()) {
            let ids = self.calendars.key_list();
            let first = min_text(&ids);
            proof {
                assert(ids@.map_values(|x: String| x@) == entry_keys(self.calendars@));
            }
            return CalendarRegistry { default_calendar_id: first, calendars: self.calendars };
        }
        self
    }

    /// Builds a registry from a list of calendars (see `normalized`). An empty
    /// list gives the default registry; a repeated id is refused with
    /// `Duplicate calendar id '<id>'`, naming the first calendar whose id was
    /// already taken.
    pub fn from_calendars(default_calendar_id: &str, calendars: Vec<CalendarDef>) -> (res: Result<Self, String>)
        ensures
            calendars@.len() == 0 ==> res is Ok && res->Ok_0@ == default_registry_view(),
            ({
                let ids = calendars@.map_values(|c: CalendarDef| c.id@);
                calendars@.len() > 0 ==> match first_repeat(ids) {
                    Some(j) => res is Err && res->Err_0@ == "Duplicate calendar id '"@ + ids[j] + "'"@,
                    None => res is Ok && res->Ok_0@ == normalized(RegistryView {
                        default_calendar_id: default_calendar_id@,
                        calendars: calendars@.map_values(|c: CalendarDef| (c.id@, c@)),
                    }),
                }
            }),
            res matches Ok(r) ==> r.wf(),
            (forall|i: int| 0 <= i < calendars@.len() ==> (#[trigger] calendars@[i]).has_business_weekday())
                ==> (res matches Ok(r) ==> r.calendars_usable()),
    {
        if calendars.len() == 0 {
            return Ok(Self::phase2_default());
        }
        let ghost ids = calendars@.map_values(|c: CalendarDef| c.id@);
        let mut map: NameMap<CalendarDef> = NameMap::new();
        let ghost all = calendars@;
        let mut taken: usize = 0;
        proof {
            map.lemma_view();
            assert(map@ =~= all.take(0).map_values(|c: CalendarDef| (c.id@, c@)));
            assert(map.keys() =~= ids.take(0));
        }
        while taken < calendars.len()
            invariant
                all == calendars@,
                ids == all.map_values(|c: CalendarDef| c.id@),
                taken <= all.len(),
                map.wf(),
                map.keys() == ids.take(taken as int),
                map@ == all.take(taken as int).map_values(|c: CalendarDef| (c.id@, c@)),
                forall|k: int| 0 <= k < taken ==> !ids.take(k).contains(#[trigger] ids[k]),
                forall|i: int| 0 <= i < map.vals().len() ==> (#[trigger] map.vals()[i])@ == all[i]@,
            decreases all.len() - taken,
        {
            let cal = calendars[taken].clone();
            if map.contains_key(cal.id.as_str()) {
                let mut msg = String::from_str("Duplicate calendar id '");
                crate::text::append_str(&mut msg, cal.id.as_str());
                crate::text::append_str(&mut msg, "'");
                proof {
                    assert(ids.take(taken as int).contains(ids[taken as int]));
                    assert(first_repeat(ids) == Some(taken as int));
                }
                return Err(msg);
            }
            let ghost before = map;
            map.insert(cal.id.clone(), cal);
            taken = taken + 1;
            proof {
                map.lemma_view();
                before.lemma_view();
                assert(map.keys() =~= ids.take(taken as int));
                assert(map@ =~= all.take(taken as int).map_values(|c: CalendarDef| (c.id@, c@)));
            }
        }
        proof {
            assert(ids.take(taken as int) =~= ids);
            assert(all.take(taken as int) =~= all);
            assert(first_repeat(ids) is None);
        }
        let reg = CalendarRegistry { default_calendar_id: String::from_str(default_calendar_id), calendars: map };
        Ok(reg.normalize())
    }
}


/// After normalization a registry has a calendar, and its default id names
/// one of its calendars.
pub proof fn lemma_normalized_default_known(r: RegistryView)
    ensures
        normalized(r).calendars.len() > 0,
        entry_keys(normalized(r).calendars).contains(normalized(r).default_calendar_id),
{
    let n = normalized(r);
    if r.calendars.len() == 0 {
        assert(entry_keys(n.calendars)[0] == "default"@);
    } else if r.default_calendar_id.len() == 0 || !entry_keys(r.calendars).contains(r.default_calendar_id) {
        crate::text::lemma_seq_min(entry_keys(r.calendars));
    }
}

/// Normalizing twice is normalizing once.
pub proof fn lemma_normalize_idempotent(r: RegistryView)
    ensures
        normalized(normalized(r)) == normalized(r),
{
    lemma_normalized_default_known(r);
    let n = normalized(r);
    if r.calendars.len() == 0 {
        reveal_strlit("default");
        assert(n.default_calendar_id.len() > 0);
    } else if r.default_calendar_id.len() == 0 || !entry_keys(r.calendars).contains(r.default_calendar_id) {
        let ids = entry_keys(r.calendars);
        crate::text::lemma_seq_min(ids);
        let m = seq_min(ids);
        assert(n == RegistryView { default_calendar_id: m, calendars: r.calendars });
    }
}

} // verus!
