//! Business-day arithmetic over configurable calendars.
//!
//! Days are numbered as chrono numbers them (`NaiveDate::num_days_from_ce`):
//! day 1 is Monday, January 1 of year 1 in the proleptic Gregorian calendar,
//! and consecutive days have consecutive numbers.

use vstd::prelude::*;
use crate::types::{BusinessWeekday, CalendarDef, CalendarView};

verus! {

/// Position of the weekday of day `d` in the week, Monday being 0.
pub open spec fn weekday_index(d: int) -> int {
    (d + 6) % 7
}

pub open spec fn weekday_at(i: int) -> BusinessWeekday {
    if i == 0 {
        BusinessWeekday::Mon
    } else if i == 1 {
        BusinessWeekday::Tue
    } else if i == 2 {
        BusinessWeekday::Wed
    } else if i == 3 {
        BusinessWeekday::Thu
    } else if i == 4 {
        BusinessWeekday::Fri
    } else if i == 5 {
        BusinessWeekday::Sat
    } else {
        BusinessWeekday::Sun
    }
}

/// The weekday of day `d`.
pub open spec fn spec_weekday(d: int) -> BusinessWeekday {
    weekday_at(weekday_index(d))
}

/// `d` is one of the holidays `h`.
pub open spec fn holiday_on(h: Seq<i64>, d: int) -> bool {
    exists|i: int| 0 <= i < h.len() && h[i] as int == d
}

/// The weekday of `d` is a business weekday of `bw`.
pub open spec fn on_business_weekday(bw: Seq<BusinessWeekday>, d: int) -> bool {
    bw.contains(spec_weekday(d))
}

/// Day `d` is a business day of the calendar: a business weekday that is not
/// a holiday.
pub open spec fn spec_is_business_day(d: int, cal: CalendarView) -> bool {
    on_business_weekday(cal.business_weekdays, d) && !holiday_on(cal.holidays, d)
}

/// Number of holidays after day `c`.
pub open spec fn holidays_after(h: Seq<i64>, c: int) -> nat
    decreases h.len(),
{
    if h.len() == 0 {
        0
    } else {
        holidays_after(h.drop_last(), c) + if h.last() as int > c { 1nat } else { 0nat }
    }
}

/// Days from `c` to the next day on a business weekday (8 if there is none).
pub open spec fn weekday_gap(bw: Seq<BusinessWeekday>, c: int) -> int {
    if on_business_weekday(bw, c + 1) {
        1
    } else if on_business_weekday(bw, c + 2) {
        2
    } else if on_business_weekday(bw, c + 3) {
        3
    } else if on_business_weekday(bw, c + 4) {
        4
    } else if on_business_weekday(bw, c + 5) {
        5
    } else if on_business_weekday(bw, c + 6) {
        6
    } else if on_business_weekday(bw, c + 7) {
        7
    } else {
        8
    }
}

pub proof fn lemma_weekday_periodic(d: int)
    ensures
        spec_weekday(d + 7) == spec_weekday(d),
{
    assert(weekday_index(d + 7) == weekday_index(d));
}

pub proof fn lemma_weekday_exhaustive(c: int, w: BusinessWeekday)
    ensures
        exists|k: int| 1 <= k <= 7 && #[trigger] spec_weekday(c + k) == w,
{
    let t: int = match w {
        BusinessWeekday::Mon => 0,
        BusinessWeekday::Tue => 1,
        BusinessWeekday::Wed => 2,
        BusinessWeekday::Thu => 3,
        BusinessWeekday::Fri => 4,
        BusinessWeekday::Sat => 5,
        BusinessWeekday::Sun => 6,
    };
    let r = weekday_index(c + 1);
    let k = if t >= r { t - r + 1 } else { t - r + 8 };
    assert(weekday_index(c + k) == t);
    assert(spec_weekday(c + k) == w);
}

pub proof fn lemma_gap(bw: Seq<BusinessWeekday>, c: int)
    requires
        bw.len() > 0,
    ensures
        1 <= weekday_gap(bw, c) <= 7,
        !on_business_weekday(bw, c + 1) ==> weekday_gap(bw, c + 1) == weekday_gap(bw, c) - 1,
{
    lemma_weekday_exhaustive(c, bw[0]);
    let k = choose|k: int| 1 <= k <= 7 && #[trigger] spec_weekday(c + k) == bw[0];
    assert(bw.contains(bw[0]));
    assert(on_business_weekday(bw, c + k));
    lemma_weekday_periodic(c + 1);
    assert(c + 1 + 7 == c + 8);
}

pub proof fn lemma_holidays_after_step(h: Seq<i64>, c: int)
    ensures
        holidays_after(h, c + 1) <= holidays_after(h, c),
        holiday_on(h, c + 1) ==> holidays_after(h, c + 1) < holidays_after(h, c),
    decreases h.len(),
{
    if h.len() > 0 {
        let d = h.drop_last();
        lemma_holidays_after_step(d, c);
        if holiday_on(h, c + 1) && !(h.last() as int == c + 1) {
            let i = choose|i: int| 0 <= i < h.len() && h[i] as int == c + 1;
            assert(i < h.len() - 1);
            assert(d[i] == h[i]);
            assert(holiday_on(d, c + 1));
        }
    }
}

pub proof fn lemma_holidays_after_bound(h: Seq<i64>, c: int)
    ensures
        holidays_after(h, c) <= h.len(),
    decreases h.len(),
{
    if h.len() > 0 {
        lemma_holidays_after_bound(h.drop_last(), c);
    }
}

/// The day reached by counting `remaining` business days after `cursor`.
pub open spec fn business_walk(cal: CalendarView, cursor: int, remaining: nat) -> int
    decreases remaining, holidays_after(cal.holidays, cursor), weekday_gap(cal.business_weekdays, cursor)
    when cal.business_weekdays.len() > 0
{
    if remaining == 0 {
        cursor
    } else if spec_is_business_day(cursor + 1, cal) {
        business_walk(cal, cursor + 1, (remaining - 1) as nat)
    } else {
        proof {
            lemma_holidays_after_step(cal.holidays, cursor);
            lemma_gap(cal.business_weekdays, cursor);
            lemma_gap(cal.business_weekdays, cursor + 1);
        }
        business_walk(cal, cursor + 1, remaining)
    }
}

pub proof fn lemma_walk_increases(cal: CalendarView, cursor: int, remaining: nat)
    requires
        cal.business_weekdays.len() > 0,
    ensures
        business_walk(cal, cursor, remaining) >= cursor,
        remaining > 0 ==> business_walk(cal, cursor, remaining) > cursor,
        remaining > 0 ==> spec_is_business_day(business_walk(cal, cursor, remaining), cal),
    decreases remaining, holidays_after(cal.holidays, cursor), weekday_gap(cal.business_weekdays, cursor),
{
    if remaining > 0 {
        if spec_is_business_day(cursor + 1, cal) {
            lemma_walk_increases(cal, cursor + 1, (remaining - 1) as nat);
        } else {
            lemma_holidays_after_step(cal.holidays, cursor);
            lemma_gap(cal.business_weekdays, cursor);
            lemma_gap(cal.business_weekdays, cursor + 1);
            lemma_walk_increases(cal, cursor + 1, remaining);
        }
    }
}

/// How many business days lie after day `a`, up to and including day `b`.
pub open spec fn business_days_between(cal: CalendarView, a: int, b: int) -> nat
    decreases b - a,
{
    if b <= a {
        0
    } else {
        (if spec_is_business_day(a + 1, cal) { 1nat } else { 0nat }) + business_days_between(cal, a + 1, b)
    }
}

/// Counting `remaining` business days after `cursor` reaches the day up to
/// which exactly `remaining` business days lie after `cursor`.
pub proof fn lemma_walk_counts(cal: CalendarView, cursor: int, remaining: nat)
    requires
        cal.business_weekdays.len() > 0,
    ensures
        business_days_between(cal, cursor, business_walk(cal, cursor, remaining)) == remaining,
    decreases remaining, holidays_after(cal.holidays, cursor), weekday_gap(cal.business_weekdays, cursor),
{
    if remaining > 0 {
        if spec_is_business_day(cursor + 1, cal) {
            lemma_walk_counts(cal, cursor + 1, (remaining - 1) as nat);
            lemma_walk_increases(cal, cursor + 1, (remaining - 1) as nat);
        } else {
            lemma_holidays_after_step(cal.holidays, cursor);
            lemma_gap(cal.business_weekdays, cursor);
            lemma_gap(cal.business_weekdays, cursor + 1);
            lemma_walk_counts(cal, cursor + 1, remaining);
            lemma_walk_increases(cal, cursor + 1, remaining);
        }
    }
}

/// A day number held in an `i64`: days past the largest `i64` stop there.
pub open spec fn clamp_day(x: int) -> i64 {
    if x > i64::MAX {
        i64::MAX
    } else if x < i64::MIN {
        i64::MIN
    } else {
        x as i64
    }
}

/// The weekday of day `date`.
pub fn weekday_of(date: i64) -> (w: BusinessWeekday)
    ensures
        w == spec_weekday(date as int),
{
    // Monday is day 1, so the index is (date + 6) mod 7, computed without overflow.
    let r: i64 = if date >= 0 {
        date % 7
    } else {
        let q: i64 = (-(date + 1)) % 7;
        6 - q
    };
    assert(0 <= r < 7);
    assert(r == date as int % 7);
    let idx: i64 = (r + 6) % 7;
    assert(idx == weekday_index(date as int));
    if idx == 0 {
        BusinessWeekday::Mon
    } else if idx == 1 {
        BusinessWeekday::Tue
    } else if idx == 2 {
        BusinessWeekday::Wed
    } else if idx == 3 {
        BusinessWeekday::Thu
    } else if idx == 4 {
        BusinessWeekday::Fri
    } else if idx == 5 {
        BusinessWeekday::Sat
    } else {
        BusinessWeekday::Sun
    }
}

/// Whether `date` is a business day of `calendar`: its weekday is a business
/// weekday and it is not a holiday.
pub fn is_business_day(date: i64, calendar: &CalendarDef) -> (b: bool)
    ensures
        b == spec_is_business_day(date as int, calendar@),
{
    let w = weekday_of(date);
    let mut on_weekday = false;
    let mut i: usize = 0;
    while i < calendar.business_weekdays.len()
        invariant
            i <= calendar.business_weekdays@.len(),
            w == spec_weekday(date as int),
            on_weekday == exists|j: int| 0 <= j < i && calendar.business_weekdays@[j] == w,
        decreases calendar.business_weekdays@.len() - i,
    {
        if calendar.business_weekdays[i] == w {
            on_weekday = true;
        }
        i = i + 1;
    }
    let mut holiday = false;
    let mut k: usize = 0;
    while k < calendar.holidays.len()
        invariant
            k <= calendar.holidays@.len(),
            holiday == exists|j: int| 0 <= j < k && calendar.holidays@[j] as int == date as int,
        decreases calendar.holidays@.len() - k,
    {
        if calendar.holidays[k] == date {
            holiday = true;
        }
        k = k + 1;
    }
    proof {
        if on_weekday {
            let j = choose|j: int| 0 <= j < i && calendar.business_weekdays@[j] == w;
            assert(calendar.business_weekdays@.contains(w));
        }
        if calendar.business_weekdays@.contains(w) {
            let j = choose|j: int| 0 <= j < calendar.business_weekdays@.len() && calendar.business_weekdays@[j] == w;
            assert(on_weekday);
        }
    }
    on_weekday && !holiday
}

/// Counts `days` business days after `date`: the result is the `days`-th
/// business day after `date` (or `date` itself when `days` is 0).
pub fn add_business_days(date: i64, days: u32, calendar: &CalendarDef) -> (res: i64)
    requires
        days > 0 ==> calendar.has_business_weekday(),
    ensures
        days == 0 ==> res == date,
        days > 0 ==> res == clamp_day(business_walk(calendar@, date as int, days as nat)),
        days > 0 && business_walk(calendar@, date as int, days as nat) <= i64::MAX ==> {
            &&& res > date
            &&& spec_is_business_day(res as int, calendar@)
            &&& business_days_between(calendar@, date as int, res as int) == days
        },
{
    if days == 0 {
        return date;
    }
    let ghost cal = calendar@;
    let ghost target = business_walk(cal, date as int, days as nat);
    let mut remaining = days;
    let mut cursor = date;
    proof {
        lemma_walk_increases(cal, date as int, days as nat);
    }
    while remaining > 0
        invariant
            cal == calendar@,
            cal.business_weekdays.len() > 0,
            target == business_walk(cal, date as int, days as nat),
            business_walk(cal, cursor as int, remaining as nat) == target,
            remaining == 0 ==> cursor as int == target,
        decreases remaining, holidays_after(cal.holidays, cursor as int), weekday_gap(cal.business_weekdays, cursor as int),
    {
        proof {
            lemma_walk_increases(cal, cursor as int, remaining as nat);
            lemma_holidays_after_step(cal.holidays, cursor as int);
            lemma_gap(cal.business_weekdays, cursor as int);
            lemma_gap(cal.business_weekdays, cursor as int + 1);
        }
        if cursor == i64::MAX {
            return i64::MAX;
        }
        cursor = cursor + 1;
        if is_business_day(cursor, calendar) {
            remaining = remaining - 1;
        }
    }
    proof {
        lemma_walk_increases(cal, date as int, days as nat);
        lemma_walk_counts(cal, date as int, days as nat);
    }
    cursor
}

/// The first business day after `date`.
pub fn next_business_day(date: i64, calendar: &CalendarDef) -> (res: i64)
    requires
        calendar.has_business_weekday(),
    ensures
        res == clamp_day(business_walk(calendar@, date as int, 1)),
{
    let ghost cal = calendar@;
    let mut cursor = date;
    proof {
        lemma_walk_increases(cal, date as int, 1);
    }
    loop
        invariant
            cal == calendar@,
            cal.business_weekdays.len() > 0,
            business_walk(cal, cursor as int, 1) == business_walk(cal, date as int, 1),
        decreases holidays_after(cal.holidays, cursor as int), weekday_gap(cal.business_weekdays, cursor as int),
    {
        proof {
            lemma_walk_increases(cal, cursor as int, 1);
            lemma_holidays_after_step(cal.holidays, cursor as int);
            lemma_gap(cal.business_weekdays, cursor as int);
            lemma_gap(cal.business_weekdays, cursor as int + 1);
        }
        if cursor == i64::MAX {
            return i64::MAX;
        }
        cursor = cursor + 1;
        if is_business_day(cursor, calendar) {
            assert(business_walk(cal, cursor as int - 1, 1) == business_walk(cal, cursor as int, 0));
            return cursor;
        }
    }
}


/// Counting `m` business days and then `n` more is counting `m + n`.
pub proof fn lemma_walk_additive(cal: CalendarView, cursor: int, m: nat, n: nat)
    requires
        cal.business_weekdays.len() > 0,
    ensures
        business_walk(cal, business_walk(cal, cursor, m), n) == business_walk(cal, cursor, m + n),
    decreases m, holidays_after(cal.holidays, cursor), weekday_gap(cal.business_weekdays, cursor),
{
    if m > 0 {
        if spec_is_business_day(cursor + 1, cal) {
            lemma_walk_additive(cal, cursor + 1, (m - 1) as nat, n);
            assert((m - 1) as nat + n == (m + n - 1) as nat);
        } else {
            lemma_holidays_after_step(cal.holidays, cursor);
            lemma_gap(cal.business_weekdays, cursor);
            lemma_gap(cal.business_weekdays, cursor + 1);
            lemma_walk_additive(cal, cursor + 1, m, n);
        }
    }
}

} // verus!
