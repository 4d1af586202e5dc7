//! Expiry of per-category threshold overrides: an override stays active up
//! to and including its expiry date.
use vstd::prelude::*;
use chrono::Datelike;

verus! {

/// The calendar date `(year, month, day)` that chrono reads from the text
/// `text` in the format `YYYY-MM-DD`, or none when chrono rejects it.
pub uninterp spec fn iso_date(text: Seq<char>) -> Option<(i32, u32, u32)>;

/// Calls `chrono::NaiveDate::parse_from_str(text, "%Y-%m-%d")` and, when it
/// succeeds, reads the date's year, month and day. Claimed: the result is a
/// function of the text alone.
#[verifier::external_body]
fn chrono_parse_iso_date(text: &str) -> (r: Option<(i32, u32, u32)>)
    ensures
        r == iso_date(text@),
{
    match chrono::NaiveDate::parse_from_str(text, "%Y-%m-%d") {
        Ok(d) => Some((d.year(), d.month(), d.day())),
        Err(_) => None,
    }
}

/// Calendar date `a` is on or before date `b` (year, then month, then day).
pub open spec fn on_or_before(a: (i32, u32, u32), b: (i32, u32, u32)) -> bool {
    a.0 < b.0 || (a.0 == b.0 && (a.1 < b.1 || (a.1 == b.1 && a.2 <= b.2)))
}

/// Whether an override with expiry date `expires` is active on `today`: it
/// is while `today` is not after `expires`; an unreadable expiry date never
/// makes it active.
pub fn active_until(today: (i32, u32, u32), expires: Option<(i32, u32, u32)>) -> (r: bool)
    ensures
        r == match expires {
            Some(e) => on_or_before(today, e),
            None => false,
        },
{
    match expires {
        Some(e) => today.0 < e.0 || (today.0 == e.0 && (today.1 < e.1 || (today.1 == e.1 && today.2 <= e.2))),
        None => false,
    }
}

/// Whether an override expiring on the ISO-8601 date `expires` is active on
/// `today`.
pub fn override_is_active(today: (i32, u32, u32), expires: &str) -> (r: bool)
    ensures
        r == match iso_date(expires@) {
            Some(e) => on_or_before(today, e),
            None => false,
        },
{
    active_until(today, chrono_parse_iso_date(expires))
}

/// Expiry follows the calendar: a later year is after any date of an earlier
/// year whatever its month and day, within a year a later month is after any
/// day of an earlier month, and within a month the days decide; the order is
/// reflexive, transitive and total. So an override is active exactly on the
/// days up to and including its expiry date.
pub proof fn lemma_expiry_follows_calendar(a: (i32, u32, u32), b: (i32, u32, u32), c: (i32, u32, u32))
    ensures
        on_or_before(a, a),
        a.0 < b.0 ==> on_or_before(a, b) && !on_or_before(b, a),
        a.0 == b.0 && a.1 < b.1 ==> on_or_before(a, b) && !on_or_before(b, a),
        a.0 == b.0 && a.1 == b.1 ==> (on_or_before(a, b) <==> a.2 <= b.2),
        on_or_before(a, b) && on_or_before(b, c) ==> on_or_before(a, c),
        on_or_before(a, b) || on_or_before(b, a),
        on_or_before(a, b) && on_or_before(b, a) ==> a == b,
{
}

/// An override is never active on a day after its expiry date: when today's
/// year is later than the expiry year, or the year is the same and the month
/// later, or year and month are the same and the day later.
pub proof fn lemma_expired_after_date(today: (i32, u32, u32), e: (i32, u32, u32))
    requires
        today.0 > e.0 || (today.0 == e.0 && today.1 > e.1) || (today.0 == e.0 && today.1 == e.1 && today.2 > e.2),
    ensures
        !on_or_before(today, e),
{
}

} // verus!
