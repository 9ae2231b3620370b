//! Calendar dates and their day numbers.
//!
//! A date is held as its day number in the proleptic Gregorian calendar, as
//! chrono counts it (`Datelike::num_days_from_ce`: January 1 of year 1 is
//! day 1). Reading and writing dates in the form `YYYY-MM-DD` is chrono's.

use vstd::prelude::*;
use chrono::{Datelike, NaiveDate};
use crate::text::{signed_decimal, signed_decimal_string};

verus! {

/// The day number of the date that chrono reads from `text` with the format
/// `%Y-%m-%d`, or none when chrono refuses the text.
pub uninterp spec fn spec_parse_date(text: Seq<char>) -> Option<i64>;

/// The text chrono writes for the date with day number `day` (`YYYY-MM-DD`),
/// or none when that day is outside chrono's range.
pub uninterp spec fn spec_date_text(day: i32) -> Option<Seq<char>>;

/// Reads a date written `YYYY-MM-DD`.
///
/// Calls chrono's `NaiveDate::parse_from_str(text, "%Y-%m-%d")` and takes the
/// day number of the date it returns. The contract only names the result:
/// chrono's parser is not restated here.
#[verifier::external_body]
pub(crate) fn parse_date(text: &str) -> (res: Option<i64>)
    ensures
        res == spec_parse_date(text@),
{
    match NaiveDate::parse_from_str(text, "%Y-%m-%d") {
        Ok(d) => Some(d.num_days_from_ce() as i64),
        Err(_) => None,
    }
}

/// Writes the date with day number `day`.
///
/// Calls chrono's `NaiveDate::from_num_days_from_ce_opt(day)` and, when it
/// gives a date, that date's `to_string()`. The contract only names the
/// result.
#[verifier::external_body]
fn chrono_date_text(day: i32) -> (res: Option<String>)
    ensures
        match res {
            Some(s) => spec_date_text(day) == Some(s@),
            None => spec_date_text(day) is None,
        },
{
    match NaiveDate::from_num_days_from_ce_opt(day) {
        Some(d) => Some(d.to_string()),
        None => None,
    }
}

/// How a day number is shown: as chrono writes the date, or as the bare
/// number when the day is outside chrono's range.
pub open spec fn day_text(day: i64) -> Seq<char> {
    if i32::MIN <= day <= i32::MAX && spec_date_text(day as i32) is Some {
        spec_date_text(day as i32)->0
    } else {
        signed_decimal(day as int)
    }
}

/// Shows a day number as a date (see `day_text`).
pub fn format_day(day: i64) -> (res: String)
    ensures
        res@ == day_text(day),
{
    if i32::MIN as i64 <= day && day <= i32::MAX as i64 {
        match chrono_date_text(day as i32) {
            Some(s) => return s,
            None => {},
        }
    }
    signed_decimal_string(day)
}

} // verus!
