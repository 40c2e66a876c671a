//! Calendar dates, read and written through chrono.

use chrono::Datelike;
use vstd::prelude::*;

verus! {

/// The format of every date this library stores and compares: `YYYY-MM-DD`.
pub open spec fn iso_date_format() -> Seq<char> {
    seq!['%', 'Y', '-', '%', 'm', '-', '%', 'd']
}

/// The calendar date (year, month, day) that chrono's
/// `NaiveDate::parse_from_str(s, fmt)` reads from `s`, or `None` where it
/// refuses `s`.
pub uninterp spec fn parsed_date(s: Seq<char>, fmt: Seq<char>) -> Option<(i32, u32, u32)>;

/// Calls `chrono::NaiveDate::parse_from_str(s, fmt)` and hands back the
/// year, month and day of the date it read. The contract only ties the
/// result to `parsed_date` of the two arguments: which texts chrono accepts
/// is chrono's own rule and is not restated here.
#[verifier::external_body]
pub(crate) fn parse_date_with(s: &str, fmt: &str) -> (r: Option<(i32, u32, u32)>)
    ensures
        r == parsed_date(s@, fmt@),
{
    match chrono::NaiveDate::parse_from_str(s, fmt) {
        Ok(d) => Some((d.year(), d.month(), d.day())),
        Err(_) => None,
    }
}

/// Reads a `YYYY-MM-DD` date.
pub fn parse_iso_date(s: &str) -> (r: Option<(i32, u32, u32)>)
    ensures
        r == parsed_date(s@, iso_date_format()),
{
    let fmt = "%Y-%m-%d";
    proof {
        reveal_strlit("%Y-%m-%d");
    }
    assert(fmt@ =~= iso_date_format());
    parse_date_with(s, fmt)
}

/// `a` is a strictly earlier calendar date than `b` (chrono's date order).
pub open spec fn date_before(a: (i32, u32, u32), b: (i32, u32, u32)) -> bool {
    ||| a.0 < b.0
    ||| (a.0 == b.0 && a.1 < b.1)
    ||| (a.0 == b.0 && a.1 == b.1 && a.2 < b.2)
}

pub fn is_date_before(a: (i32, u32, u32), b: (i32, u32, u32)) -> (r: bool)
    ensures
        r == date_before(a, b),
{
    a.0 < b.0 || (a.0 == b.0 && a.1 < b.1) || (a.0 == b.0 && a.1 == b.1 && a.2 < b.2)
}

/// Calendar order: of two dates exactly one comes first unless they are the
/// same; the year decides before the month, and the month before the day.
pub proof fn law_date_order(a: (i32, u32, u32), b: (i32, u32, u32))
    ensures
        a == b ==> !date_before(a, b),
        a != b ==> (date_before(a, b) != date_before(b, a)),
        a.0 < b.0 ==> date_before(a, b),
        a.0 == b.0 && a.1 < b.1 ==> date_before(a, b),
        a.0 == b.0 && a.1 == b.1 && a.2 < b.2 ==> date_before(a, b),
{
}

} // verus!
