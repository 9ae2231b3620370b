//! Calendar configuration: the calendars that a configuration file lists,
//! checked and turned into a calendar registry.
//!
//! Reading the file and decoding its JSON happen outside the library; what
//! arrives here is each calendar entry as plain text.

use vstd::prelude::*;
use crate::dates::{parse_date, spec_parse_date};
use crate::namemap::opt_view;
use crate::text::{owned, append_str, texts, trim_text, trimmed, ascii_lowercase, ascii_lower, text_eq};
use crate::types::{
    BusinessWeekday, CalendarDef, CalendarView, CalendarRegistry, RegistryView, default_registry_view,
    first_repeat, normalized, views,
};

verus! {

/// One calendar as a configuration file lists it, before it is checked.
pub struct RawCalendarEntry {
    pub id: String,
    pub jurisdiction: Option<String>,
    pub business_weekdays: Option<Vec<String>>,
    pub holidays: Option<Vec<String>>,
}

pub struct RawEntryView {
    pub id: Seq<char>,
    pub jurisdiction: Option<Seq<char>>,
    pub business_weekdays: Option<Seq<Seq<char>>>,
    pub holidays: Option<Seq<Seq<char>>>,
}

pub open spec fn opt_texts(o: Option<Vec<String>>) -> Option<Seq<Seq<char>>> {
    match o {
        Some(v) => Some(texts(v@)),
        None => None,
    }
}

impl View for RawCalendarEntry {
    type V = RawEntryView;

    open spec fn view(&self) -> RawEntryView {
        RawEntryView {
            id: self.id@,
            jurisdiction: opt_view(self.jurisdiction),
            business_weekdays: opt_texts(self.business_weekdays),
            holidays: opt_texts(self.holidays),
        }
    }
}

/// The weekday that a lower-case name stands for.
pub open spec fn weekday_named(w: Seq<char>) -> Option<BusinessWeekday> {
    if w == "mon"@ || w == "monday"@ {
        Some(BusinessWeekday::Mon)
    } else if w == "tue"@ || w == "tues"@ || w == "tuesday"@ {
        Some(BusinessWeekday::Tue)
    } else if w == "wed"@ || w == "wednesday"@ {
        Some(BusinessWeekday::Wed)
    } else if w == "thu"@ || w == "thurs"@ || w == "thursday"@ {
        Some(BusinessWeekday::Thu)
    } else if w == "fri"@ || w == "friday"@ {
        Some(BusinessWeekday::Fri)
    } else if w == "sat"@ || w == "saturday"@ {
        Some(BusinessWeekday::Sat)
    } else if w == "sun"@ || w == "sunday"@ {
        Some(BusinessWeekday::Sun)
    } else {
        None
    }
}

/// The weekday that `raw` names, ignoring surrounding white space and the
/// case of ASCII letters.
pub open spec fn weekday_spec(raw: Seq<char>) -> Option<BusinessWeekday> {
    weekday_named(ascii_lower(trimmed(raw)))
}

/// The day number of the holiday `raw`, surrounding white space ignored.
pub open spec fn holiday_spec(raw: Seq<char>) -> Option<i64> {
    spec_parse_date(trimmed(raw))
}

/// Reads each text with `f`, in order: the values read, or the first text
/// that `f` refuses.
pub open spec fn parse_all<T>(ws: Seq<Seq<char>>, f: spec_fn(Seq<char>) -> Option<T>) -> Result<Seq<T>, Seq<char>>
    decreases ws.len(),
{
    if ws.len() == 0 {
        Ok(Seq::empty())
    } else {
        match parse_all(ws.drop_last(), f) {
            Err(raw) => Err(raw),
            Ok(v) => match f(ws.last()) {
                Some(x) => Ok(v.push(x)),
                None => Err(ws.last()),
            },
        }
    }
}

pub open spec fn all_weekdays(ws: Seq<Seq<char>>) -> Result<Seq<BusinessWeekday>, Seq<char>> {
    parse_all(ws, |w: Seq<char>| weekday_spec(w))
}

pub open spec fn all_holidays(hs: Seq<Seq<char>>) -> Result<Seq<i64>, Seq<char>> {
    parse_all(hs, |h: Seq<char>| holiday_spec(h))
}

pub open spec fn invalid_weekday_message(id: Seq<char>, raw: Seq<char>) -> Seq<char> {
    "calendar '"@ + id + "' has invalid weekday '"@ + raw + "'"@
}

pub open spec fn no_weekday_message(id: Seq<char>) -> Seq<char> {
    "calendar '"@ + id + "' must declare at least one business weekday"@
}

pub open spec fn invalid_holiday_message(id: Seq<char>, raw: Seq<char>) -> Seq<char> {
    "calendar '"@ + id + "' has invalid holiday '"@ + raw + "'; expected YYYY-MM-DD"@
}

/// Every weekday, Monday first.
pub open spec fn whole_week() -> Seq<BusinessWeekday> {
    seq![
        BusinessWeekday::Mon,
        BusinessWeekday::Tue,
        BusinessWeekday::Wed,
        BusinessWeekday::Thu,
        BusinessWeekday::Fri,
        BusinessWeekday::Sat,
        BusinessWeekday::Sun,
    ]
}

/// The members of `ws` that occur in `v`, in the order of `ws`.
pub open spec fn kept_in(ws: Seq<BusinessWeekday>, v: Seq<BusinessWeekday>) -> Seq<BusinessWeekday>
    decreases ws.len(),
{
    if ws.len() == 0 {
        Seq::empty()
    } else {
        let k = kept_in(ws.drop_last(), v);
        if v.contains(ws.last()) {
            k.push(ws.last())
        } else {
            k
        }
    }
}

/// The weekdays named in `v`, each once, Monday first: the set of them.
pub open spec fn weekday_set(v: Seq<BusinessWeekday>) -> Seq<BusinessWeekday> {
    kept_in(whole_week(), v)
}

proof fn lemma_kept_in(ws: Seq<BusinessWeekday>, v: Seq<BusinessWeekday>)
    requires
        forall|i: int, j: int| 0 <= i < j < ws.len() ==> ws[i] != ws[j],
    ensures
        forall|w: BusinessWeekday| #[trigger] kept_in(ws, v).contains(w) <==> (ws.contains(w) && v.contains(w)),
        forall|i: int, j: int| 0 <= i < j < kept_in(ws, v).len() ==> kept_in(ws, v)[i] != kept_in(ws, v)[j],
    decreases ws.len(),
{
    if ws.len() > 0 {
        let d = ws.drop_last();
        let last = ws.last();
        assert forall|i: int, j: int| 0 <= i < j < d.len() implies d[i] != d[j] by {
            assert(d[i] == ws[i] && d[j] == ws[j]);
        }
        lemma_kept_in(d, v);
        let k = kept_in(d, v);
        assert(!d.contains(last)) by {
            if d.contains(last) {
                let i = choose|i: int| 0 <= i < d.len() && d[i] == last;
                assert(ws[i] == ws[ws.len() - 1]);
            }
        }
        assert forall|w: BusinessWeekday| ws.contains(w) <==> (d.contains(w) || w == last) by {
            if ws.contains(w) {
                let i = choose|i: int| 0 <= i < ws.len() && ws[i] == w;
                if i < ws.len() - 1 {
                    assert(d[i] == w);
                }
            }
            if d.contains(w) {
                let i = choose|i: int| 0 <= i < d.len() && d[i] == w;
                assert(ws[i] == w);
            }
            if w == last {
                assert(ws[ws.len() - 1] == w);
            }
        }
        if v.contains(last) {
            let r = k.push(last);
            assert forall|w: BusinessWeekday| #[trigger] r.contains(w) <==> (k.contains(w) || w == last) by {
                if r.contains(w) {
                    let i = choose|i: int| 0 <= i < r.len() && r[i] == w;
                    if i < k.len() {
                        assert(k[i] == w);
                    }
                }
                if k.contains(w) {
                    let i = choose|i: int| 0 <= i < k.len() && k[i] == w;
                    assert(r[i] == w);
                }
                if w == last {
                    assert(r[k.len() as int] == w);
                }
            }
            assert forall|i: int, j: int| 0 <= i < j < r.len() implies r[i] != r[j] by {
                if j == k.len() {
                    assert(k.contains(r[i]));
                }
            }
        }
    }
}

/// The set of weekdays of `v` holds each weekday of `v`, and nothing else,
/// once.
pub proof fn lemma_weekday_set(v: Seq<BusinessWeekday>)
    ensures
        forall|w: BusinessWeekday| #[trigger] weekday_set(v).contains(w) <==> v.contains(w),
        forall|i: int, j: int| 0 <= i < j < weekday_set(v).len() ==> weekday_set(v)[i] != weekday_set(v)[j],
        v.len() > 0 ==> weekday_set(v).len() > 0,
{
    let ws = whole_week();
    lemma_kept_in(ws, v);
    assert forall|w: BusinessWeekday| ws.contains(w) by {
        match w {
            BusinessWeekday::Mon => assert(ws[0] == w),
            BusinessWeekday::Tue => assert(ws[1] == w),
            BusinessWeekday::Wed => assert(ws[2] == w),
            BusinessWeekday::Thu => assert(ws[3] == w),
            BusinessWeekday::Fri => assert(ws[4] == w),
            BusinessWeekday::Sat => assert(ws[5] == w),
            BusinessWeekday::Sun => assert(ws[6] == w),
        }
    }
    if v.len() > 0 {
        assert(v.contains(v[0]));
        assert(weekday_set(v).contains(v[0]));
    }
}

fn has_weekday(v: &Vec<BusinessWeekday>, w: BusinessWeekday) -> (b: bool)
    ensures
        b == v@.contains(w),
{
    let mut i: usize = 0;
    while i < v.len()
        invariant
            i <= v@.len(),
            forall|j: int| 0 <= j < i ==> v@[j] != w,
        decreases v@.len() - i,
    {
        if v[i] == w {
            assert(v@[i as int] == w);
            return true;
        }
        i = i + 1;
    }
    false
}

/// The weekdays of `v`, each once, Monday first (see `weekday_set`).
fn weekdays_as_set(v: &Vec<BusinessWeekday>) -> (res: Vec<BusinessWeekday>)
    ensures
        res@ == weekday_set(v@),
{
    let week = vec![
        BusinessWeekday::Mon,
        BusinessWeekday::Tue,
        BusinessWeekday::Wed,
        BusinessWeekday::Thu,
        BusinessWeekday::Fri,
        BusinessWeekday::Sat,
        BusinessWeekday::Sun,
    ];
    assert(week@ =~= whole_week());
    let mut res: Vec<BusinessWeekday> = Vec::new();
    let mut i: usize = 0;
    while i < week.len()
        invariant
            week@ == whole_week(),
            i <= week@.len(),
            res@ == kept_in(week@.take(i as int), v@),
        decreases week@.len() - i,
    {
        assert(week@.take(i + 1).drop_last() =~= week@.take(i as int));
        let w = week[i];
        if has_weekday(v, w) {
            res.push(w);
        }
        i = i + 1;
    }
    assert(week@.take(i as int) =~= week@);
    res
}

/// The business weekdays of calendar `id`, or the message that refuses them.
pub open spec fn weekdays_result(id: Seq<char>, ws: Seq<Seq<char>>) -> Result<Seq<BusinessWeekday>, Seq<char>> {
    match all_weekdays(ws) {
        Err(raw) => Err(invalid_weekday_message(id, raw)),
        Ok(v) => if v.len() == 0 {
            Err(no_weekday_message(id))
        } else {
            Ok(weekday_set(v))
        },
    }
}

/// How many members of `s` are before day `x`.
pub open spec fn count_below(s: Seq<i64>, x: i64) -> int
    decreases s.len(),
{
    if s.len() == 0 {
        0
    } else {
        count_below(s.drop_last(), x) + if s.last() < x { 1int } else { 0int }
    }
}

/// Each day of `s` is before the next.
pub open spec fn increasing(s: Seq<i64>) -> bool {
    forall|i: int, j: int| 0 <= i < j < s.len() ==> s[i] < s[j]
}

/// The increasing `s` with day `x` added in its place, unless `s` holds it.
pub open spec fn insert_day(s: Seq<i64>, x: i64) -> Seq<i64> {
    if s.contains(x) {
        s
    } else {
        s.insert(count_below(s, x), x)
    }
}

/// The days of `v`, each once, in increasing order: the set of them.
pub open spec fn day_set(v: Seq<i64>) -> Seq<i64>
    decreases v.len(),
{
    if v.len() == 0 {
        Seq::empty()
    } else {
        insert_day(day_set(v.drop_last()), v.last())
    }
}

proof fn lemma_count_below(s: Seq<i64>, x: i64)
    requires
        increasing(s),
    ensures
        0 <= count_below(s, x) <= s.len(),
        forall|j: int| 0 <= j < count_below(s, x) ==> s[j] < x,
        forall|j: int| count_below(s, x) <= j < s.len() ==> s[j] >= x,
    decreases s.len(),
{
    if s.len() > 0 {
        let d = s.drop_last();
        assert(increasing(d)) by {
            assert forall|i: int, j: int| 0 <= i < j < d.len() implies d[i] < d[j] by {
                assert(d[i] == s[i] && d[j] == s[j]);
            }
        }
        lemma_count_below(d, x);
        let p = count_below(d, x);
        if s.last() < x {
            if p < d.len() {
                assert(d[p] == s[p]);
                assert(s[p] < s[s.len() - 1]);
            }
            assert forall|j: int| 0 <= j < s.len() implies s[j] < x by {
                if j < d.len() {
                    assert(d[j] == s[j]);
                    assert(s[j] < s[s.len() - 1]);
                }
            }
        } else {
            assert forall|j: int| 0 <= j < p implies s[j] < x by {
                assert(d[j] == s[j]);
            }
            assert forall|j: int| p <= j < s.len() implies s[j] >= x by {
                if j < d.len() {
                    assert(d[j] == s[j]);
                }
            }
        }
    }
}

proof fn lemma_insert_day(s: Seq<i64>, x: i64)
    requires
        increasing(s),
    ensures
        increasing(insert_day(s, x)),
        forall|y: i64| #[trigger] insert_day(s, x).contains(y) <==> (s.contains(y) || y == x),
{
    if !s.contains(x) {
        lemma_count_below(s, x);
        let p = count_below(s, x);
        let r = s.insert(p, x);
        s.insert_ensures(p, x);
        assert forall|j: int| p <= j < s.len() implies s[j] > x by {
            assert(s[j] != x);
        }
        assert forall|i: int, j: int| 0 <= i < j < r.len() implies r[i] < r[j] by {
            if j < p {
            } else if j == p {
            } else if i < p {
                assert(r[j] == s[j - 1]);
            } else if i == p {
                assert(r[j] == s[j - 1]);
            } else {
                assert(r[i] == s[i - 1]);
                assert(r[j] == s[j - 1]);
            }
        }
        assert forall|y: i64| #[trigger] r.contains(y) <==> (s.contains(y) || y == x) by {
            if r.contains(y) {
                let k = choose|k: int| 0 <= k < r.len() && r[k] == y;
                if k < p {
                    assert(s[k] == y);
                } else if k > p {
                    assert(s[k - 1] == y);
                }
            }
            if s.contains(y) {
                let k = choose|k: int| 0 <= k < s.len() && s[k] == y;
                if k < p {
                    assert(r[k] == y);
                } else {
                    assert(r[k + 1] == y);
                }
            }
            if y == x {
                assert(r[p] == y);
            }
        }
    }
}

/// The set of days of `v` is increasing (so holds each day once) and holds
/// exactly the days of `v`.
pub proof fn lemma_day_set(v: Seq<i64>)
    ensures
        increasing(day_set(v)),
        forall|y: i64| #[trigger] day_set(v).contains(y) <==> v.contains(y),
    decreases v.len(),
{
    if v.len() > 0 {
        let d = v.drop_last();
        lemma_day_set(d);
        lemma_insert_day(day_set(d), v.last());
        assert forall|y: i64| #[trigger] day_set(v).contains(y) <==> v.contains(y) by {
            if v.contains(y) {
                let k = choose|k: int| 0 <= k < v.len() && v[k] == y;
                if k < d.len() {
                    assert(d[k] == y);
                }
            }
            if d.contains(y) {
                let k = choose|k: int| 0 <= k < d.len() && d[k] == y;
                assert(v[k] == y);
            }
            if y == v.last() {
                assert(v[v.len() - 1] == y);
            }
        }
    }
}

/// Adds day `x` to the increasing list `s` (see `insert_day`).
fn insert_holiday(s: &mut Vec<i64>, x: i64)
    ensures
        final(s)@ == insert_day(old(s)@, x),
{
    let mut i: usize = 0;
    let mut p: usize = 0;
    while i < s.len()
        invariant
            i <= s@.len(),
            s@ == old(s)@,
            p as int == count_below(s@.take(i as int), x),
            p <= i,
            forall|j: int| 0 <= j < i ==> s@[j] != x,
        decreases s@.len() - i,
    {
        assert(s@.take(i + 1).drop_last() =~= s@.take(i as int));
        if s[i] == x {
            assert(s@[i as int] == x);
            return;
        }
        if s[i] < x {
            p = p + 1;
        }
        i = i + 1;
    }
    assert(s@.take(i as int) =~= s@);
    s.insert(p, x);
}

/// The holidays of calendar `id`, or the message that refuses them.
pub open spec fn holidays_result(id: Seq<char>, hs: Seq<Seq<char>>) -> Result<Seq<i64>, Seq<char>> {
    match all_holidays(hs) {
        Err(raw) => Err(invalid_holiday_message(id, raw)),
        Ok(v) => Ok(day_set(v)),
    }
}

/// The calendar that an entry describes, or the message that refuses it.
/// Without weekdays a calendar has the standard business week; without
/// holidays it has none.
pub open spec fn entry_result(e: RawEntryView) -> Result<CalendarView, Seq<char>> {
    if trimmed(e.id).len() == 0 {
        Err("calendar id cannot be empty"@)
    } else {
        let wr = match e.business_weekdays {
            Some(ws) => weekdays_result(e.id, ws),
            None => Ok(BusinessWeekday::spec_standard()),
        };
        match wr {
            Err(m) => Err(m),
            Ok(bw) => match holidays_result(e.id, e.holidays.unwrap_or(Seq::empty())) {
                Err(m) => Err(m),
                Ok(hs) => Ok(CalendarView { id: e.id, jurisdiction: e.jurisdiction, business_weekdays: bw, holidays: hs }),
            },
        }
    }
}

/// The calendars of the entries, in order, or the message of the first
/// entry that is refused.
pub open spec fn entries_result(es: Seq<RawEntryView>) -> Result<Seq<CalendarView>, Seq<char>>
    decreases es.len(),
{
    if es.len() == 0 {
        Ok(Seq::empty())
    } else {
        match entries_result(es.drop_last()) {
            Err(m) => Err(m),
            Ok(v) => match entry_result(es.last()) {
                Ok(c) => Ok(v.push(c)),
                Err(m) => Err(m),
            },
        }
    }
}

/// The registry made of `cals` with default id `default_id` (see
/// `CalendarRegistry::from_calendars`).
pub open spec fn registry_of(default_id: Seq<char>, cals: Seq<CalendarView>) -> Result<RegistryView, Seq<char>> {
    let ids = cals.map_values(|c: CalendarView| c.id);
    if cals.len() == 0 {
        Ok(default_registry_view())
    } else {
        match first_repeat(ids) {
            Some(j) => Err("Duplicate calendar id '"@ + ids[j] + "'"@),
            None => Ok(normalized(RegistryView {
                default_calendar_id: default_id,
                calendars: cals.map_values(|c: CalendarView| (c.id, c)),
            })),
        }
    }
}

/// What a configuration with default id `default_id` (empty when absent)
/// and these entries gives.
pub open spec fn config_result(default_id: Option<Seq<char>>, es: Seq<RawEntryView>) -> Result<RegistryView, Seq<char>> {
    match entries_result(es) {
        Err(m) => Err(m),
        Ok(cals) => registry_of(default_id.unwrap_or(Seq::empty()), cals),
    }
}

/// Reads a weekday name: `mon`/`monday`, `tue`/`tues`/`tuesday`,
/// `wed`/`wednesday`, `thu`/`thurs`/`thursday`, `fri`/`friday`,
/// `sat`/`saturday`, `sun`/`sunday`, in any ASCII case and with surrounding
/// white space ignored.
pub fn parse_business_weekday(raw: &str) -> (res: Option<BusinessWeekday>)
    ensures
        res == weekday_spec(raw@),
{
    let t = trim_text(raw);
    let w = ascii_lowercase(t.as_str());
    let s = w.as_str();
    if text_eq(s, "mon") || text_eq(s, "monday") {
        Some(BusinessWeekday::Mon)
    } else if text_eq(s, "tue") || text_eq(s, "tues") || text_eq(s, "tuesday") {
        Some(BusinessWeekday::Tue)
    } else if text_eq(s, "wed") || text_eq(s, "wednesday") {
        Some(BusinessWeekday::Wed)
    } else if text_eq(s, "thu") || text_eq(s, "thurs") || text_eq(s, "thursday") {
        Some(BusinessWeekday::Thu)
    } else if text_eq(s, "fri") || text_eq(s, "friday") {
        Some(BusinessWeekday::Fri)
    } else if text_eq(s, "sat") || text_eq(s, "saturday") {
        Some(BusinessWeekday::Sat)
    } else if text_eq(s, "sun") || text_eq(s, "sunday") {
        Some(BusinessWeekday::Sun)
    } else {
        None
    }
}

/// `"calendar '<id>'"` followed by `rest`.
fn calendar_message(calendar_id: &str, middle: &str, raw: &str, tail: &str) -> (res: String)
    ensures
        res@ == "calendar '"@ + calendar_id@ + middle@ + raw@ + tail@,
{
    let mut m = owned("calendar '");
    append_str(&mut m, calendar_id);
    append_str(&mut m, middle);
    append_str(&mut m, raw);
    append_str(&mut m, tail);
    m
}

/// Reads the business weekdays of calendar `calendar_id`, as a set: each
/// weekday named once, Monday first (see `weekday_set`). The first name that
/// is not a weekday is refused with `calendar '<id>' has invalid weekday
/// '<name>'`; an empty list with `calendar '<id>' must declare at least one
/// business weekday`.
pub fn parse_business_weekdays(calendar_id: &str, weekdays: Vec<String>) -> (res: Result<Vec<BusinessWeekday>, String>)
    ensures
        match weekdays_result(calendar_id@, texts(weekdays@)) {
            Ok(v) => res is Ok && res->Ok_0@ == v,
            Err(m) => res is Err && res->Err_0@ == m,
        },
{
    let ghost ws = texts(weekdays@);
    let mut parsed: Vec<BusinessWeekday> = Vec::new();
    let mut i: usize = 0;
    while i < weekdays.len()
        invariant
            ws == texts(weekdays@),
            i <= ws.len(),
            all_weekdays(ws.take(i as int)) == Ok::<Seq<BusinessWeekday>, Seq<char>>(parsed@),
        decreases ws.len() - i,
    {
        let raw = &weekdays[i];
        proof {
            assert(ws.take(i + 1).drop_last() =~= ws.take(i as int));
            assert(ws.take(i + 1).last() == raw@);
        }
        match parse_business_weekday(raw.as_str()) {
            Some(d) => {
                parsed.push(d);
            },
            None => {
                proof {
                    lemma_parse_all_prefix_err(ws, (i + 1) as int, |w: Seq<char>| weekday_spec(w));
                }
                return Err(calendar_message(calendar_id, "' has invalid weekday '", raw.as_str(), "'"));
            },
        }
        i = i + 1;
    }
    proof {
        assert(ws.take(i as int) =~= ws);
    }
    if parsed.len() == 0 {
        let mut m = owned("calendar '");
        append_str(&mut m, calendar_id);
        append_str(&mut m, "' must declare at least one business weekday");
        return Err(m);
    }
    Ok(weekdays_as_set(&parsed))
}

/// When the first `n` texts already hold a refused one, so do all texts.
pub proof fn lemma_parse_all_prefix_err<T>(ws: Seq<Seq<char>>, n: int, f: spec_fn(Seq<char>) -> Option<T>)
    requires
        0 <= n <= ws.len(),
        parse_all(ws.take(n), f) is Err,
    ensures
        parse_all(ws, f) == parse_all(ws.take(n), f),
    decreases ws.len() - n,
{
    if n < ws.len() {
        let t = ws.take(n + 1);
        assert(t.drop_last() =~= ws.take(n));
        lemma_parse_all_prefix_err(ws, n + 1, f);
    } else {
        assert(ws.take(n) =~= ws);
    }
}

/// Reads the holidays of calendar `calendar_id`, each `YYYY-MM-DD` with
/// surrounding white space ignored, as a set: each day once, in increasing
/// order (see `day_set`). The first that is not such a date is
/// refused with `calendar '<id>' has invalid holiday '<text>'; expected
/// YYYY-MM-DD`.
pub fn parse_holidays(calendar_id: &str, holidays: Vec<String>) -> (res: Result<Vec<i64>, String>)
    ensures
        match holidays_result(calendar_id@, texts(holidays@)) {
            Ok(v) => res is Ok && res->Ok_0@ == v,
            Err(m) => res is Err && res->Err_0@ == m,
        },
{
    let ghost hs = texts(holidays@);
    let mut parsed: Vec<i64> = Vec::new();
    let mut i: usize = 0;
    while i < holidays.len()
        invariant
            hs == texts(holidays@),
            i <= hs.len(),
            all_holidays(hs.take(i as int)) == Ok::<Seq<i64>, Seq<char>>(parsed@),
        decreases hs.len() - i,
    {
        let raw = &holidays[i];
        proof {
            assert(hs.take(i + 1).drop_last() =~= hs.take(i as int));
            assert(hs.take(i + 1).last() == raw@);
        }
        let t = trim_text(raw.as_str());
        match parse_date(t.as_str()) {
            Some(d) => {
                parsed.push(d);
            },
            None => {
                proof {
                    lemma_parse_all_prefix_err(hs, (i + 1) as int, |h: Seq<char>| holiday_spec(h));
                }
                return Err(calendar_message(calendar_id, "' has invalid holiday '", raw.as_str(), "'; expected YYYY-MM-DD"));
            },
        }
        i = i + 1;
    }
    proof {
        assert(hs.take(i as int) =~= hs);
    }
    let mut set: Vec<i64> = Vec::new();
    let mut k: usize = 0;
    while k < parsed.len()
        invariant
            k <= parsed@.len(),
            set@ == day_set(parsed@.take(k as int)),
        decreases parsed@.len() - k,
    {
        assert(parsed@.take(k + 1).drop_last() =~= parsed@.take(k as int));
        insert_holiday(&mut set, parsed[k]);
        k = k + 1;
    }
    assert(parsed@.take(k as int) =~= parsed@);
    Ok(set)
}

fn copy_texts(v: &Vec<String>) -> (res: Vec<String>)
    ensures
        texts(res@) == texts(v@),
{
    let mut res: Vec<String> = Vec::new();
    let mut i: usize = 0;
    while i < v.len()
        invariant
            i <= v@.len(),
            texts(res@) == texts(v@).take(i as int),
        decreases v@.len() - i,
    {
        let ghost before = texts(res@);
        let x = v[i].clone();
        res.push(x);
        assert(texts(res@) =~= before.push(v@[i as int]@));
        assert(texts(v@).take(i + 1) =~= texts(v@).take(i as int).push(v@[i as int]@));
        i = i + 1;
    }
    assert(texts(v@).take(i as int) =~= texts(v@));
    res
}

/// The calendar that one entry describes (see `entry_result`).
fn build_calendar(entry: &RawCalendarEntry) -> (res: Result<CalendarDef, String>)
    ensures
        match entry_result(entry@) {
            Ok(c) => res is Ok && res->Ok_0@ == c,
            Err(m) => res is Err && res->Err_0@ == m,
        },
{
    let t = trim_text(entry.id.as_str());
    if text_eq(t.as_str(), "") {
        proof {
            reveal_strlit("");
            assert(trimmed(entry.id@).len() == 0);
        }
        return Err(owned("calendar id cannot be empty"));
    }
    proof {
        reveal_strlit("");
        if trimmed(entry.id@).len() == 0 {
            assert(t@ =~= ""@);
        }
    }
    let business_weekdays = match &entry.business_weekdays {
        Some(ws) => match parse_business_weekdays(entry.id.as_str(), copy_texts(ws)) {
            Ok(v) => v,
            Err(m) => return Err(m),
        },
        None => BusinessWeekday::standard_business_days(),
    };
    let raw_holidays = match &entry.holidays {
        Some(hs) => copy_texts(hs),
        None => Vec::new(),
    };
    proof {
        assert(texts(raw_holidays@) =~= entry@.holidays.unwrap_or(Seq::empty()));
    }
    let holidays = match parse_holidays(entry.id.as_str(), raw_holidays) {
        Ok(v) => v,
        Err(m) => return Err(m),
    };
    let jurisdiction = match &entry.jurisdiction {
        Some(j) => Some(j.clone()),
        None => None,
    };
    Ok(CalendarDef { id: entry.id.clone(), jurisdiction, business_weekdays, holidays })
}

/// Builds the calendar registry of a configuration: each entry in turn is
/// checked (the first refusal is the result); the calendars then make the
/// registry as `CalendarRegistry::from_calendars` does, with the default id
/// empty when the configuration names none.
pub fn build_calendar_registry(default_calendar_id: Option<String>, entries: Vec<RawCalendarEntry>) -> (res: Result<CalendarRegistry, String>)
    ensures
        match config_result(opt_view(default_calendar_id), views(entries@)) {
            Ok(r) => res is Ok && res->Ok_0@ == r,
            Err(m) => res is Err && res->Err_0@ == m,
        },
        res matches Ok(r) ==> r.wf() && r.calendars_usable(),
{
    let ghost es = views(entries@);
    let mut calendars: Vec<CalendarDef> = Vec::new();
    let mut i: usize = 0;
    proof {
        assert(es.take(0) =~= Seq::<RawEntryView>::empty());
        assert(views(calendars@) =~= Seq::<CalendarView>::empty());
    }
    while i < entries.len()
        invariant
            es == views(entries@),
            i <= es.len(),
            entries_result(es.take(i as int)) == Ok::<Seq<CalendarView>, Seq<char>>(views(calendars@)),
            forall|k: int| 0 <= k < calendars@.len() ==> (#[trigger] calendars@[k]).has_business_weekday(),
        decreases es.len() - i,
    {
        proof {
            assert(es.take(i + 1).drop_last() =~= es.take(i as int));
            assert(es.take(i + 1).last() == entries@[i as int]@);
        }
        match build_calendar(&entries[i]) {
            Ok(c) => {
                let ghost before = views(calendars@);
                calendars.push(c);
                proof {
                    assert(views(calendars@) =~= before.push(c@));
                    lemma_entry_has_weekday(entries@[i as int]@);
                }
            },
            Err(m) => {
                proof {
                    lemma_entries_prefix_err(es, (i + 1) as int);
                }
                return Err(m);
            },
        }
        i = i + 1;
    }
    proof {
        assert(es.take(i as int) =~= es);
        let cals = views(calendars@);
        assert(calendars@.map_values(|c: CalendarDef| c.id@) =~= cals.map_values(|c: CalendarView| c.id));
        assert(calendars@.map_values(|c: CalendarDef| (c.id@, c@)) =~= cals.map_values(|c: CalendarView| (c.id, c)));
    }
    let default_id = match &default_calendar_id {
        Some(d) => d.clone(),
        None => String::new(),
    };
    proof {
        assert(default_id@ == opt_view(default_calendar_id).unwrap_or(Seq::empty()));
    }
    CalendarRegistry::from_calendars(default_id.as_str(), calendars)
}

proof fn lemma_entry_has_weekday(e: RawEntryView)
    ensures
        entry_result(e) matches Ok(c) ==> c.business_weekdays.len() > 0,
{
    match e.business_weekdays {
        Some(ws) => match all_weekdays(ws) {
            Ok(v) => lemma_weekday_set(v),
            Err(_) => {},
        },
        None => {},
    }
}

/// When the first `n` entries already hold a refused one, so do all entries.
proof fn lemma_entries_prefix_err(es: Seq<RawEntryView>, n: int)
    requires
        0 <= n <= es.len(),
        entries_result(es.take(n)) is Err,
    ensures
        entries_result(es) == entries_result(es.take(n)),
    decreases es.len() - n,
{
    if n < es.len() {
        assert(es.take(n + 1).drop_last() =~= es.take(n));
        lemma_entries_prefix_err(es, n + 1);
    } else {
        assert(es.take(n) =~= es);
    }
}

} // verus!
