//! Due-date texts and their normalization.
//!
//! A due date is accepted in two forms: a full RFC 3339 timestamp, or a bare
//! `YYYY-MM-DD` date that is completed with a fixed time-of-day suffix before
//! parsing.  Parsing itself is chrono's; the parsed instant is carried as
//! whole seconds since the Unix epoch, normalized to UTC.

use vstd::prelude::*;

verus! {

/// The instant, in whole seconds since the Unix epoch (UTC), that chrono's
/// RFC 3339 parser reads out of `text`; `None` when `text` does not parse.
/// The result is a function of the text alone.
pub uninterp spec fn rfc3339_instant(text: Seq<char>) -> Option<i64>;

/// Relies on chrono's `DateTime::parse_from_rfc3339` and `DateTime::timestamp`:
/// parsing is a pure function of the text, and `timestamp` is the parsed
/// instant as whole non-leap seconds since the Unix epoch, in UTC regardless
/// of the offset written in the text.
#[verifier::external_body]
fn parse_rfc3339_seconds(text: &str, suffix: &str) -> (r: Option<i64>)
    ensures
        r == rfc3339_instant(text@ + suffix@),
{
    let joined = format!("{}{}", text, suffix);
    match chrono::DateTime::parse_from_rfc3339(&joined) {
        Ok(dt) => Some(dt.timestamp()),
        Err(_) => None,
    }
}

/// How a due-date text resolves against a time-of-day suffix: an empty text
/// is "no due date", a full timestamp wins, and only otherwise the bare date
/// completed with `suffix` is tried.  An unparsable text resolves to `None`
/// rather than an error.
pub open spec fn resolve_due_text(text: Seq<char>, suffix: Seq<char>) -> Option<i64> {
    if text.len() == 0 {
        None
    } else if rfc3339_instant(text) is Some {
        rfc3339_instant(text)
    } else {
        rfc3339_instant(text + suffix)
    }
}

/// Resolution of an optional due-date text.
pub open spec fn resolve_due_opt(text: Option<Seq<char>>, suffix: Seq<char>) -> Option<i64> {
    match text {
        Option::None => None,
        Option::Some(t) => resolve_due_text(t, suffix),
    }
}

/// The suffix that completes a bare date at the start of its day.
pub open spec fn start_of_day_suffix() -> Seq<char> {
    "T00:00:00Z"@
}

/// The suffix that completes a bare date at the end of its day.
pub open spec fn end_of_day_suffix() -> Seq<char> {
    "T23:59:59Z"@
}

/// Parses a due-date text, completing a bare date with the start of its day.
pub fn parse_due_start_of_day(text: &str) -> (r: Option<i64>)
    ensures
        r == resolve_due_text(text@, start_of_day_suffix()),
{
    parse_due_with_suffix(text, "T00:00:00Z")
}

/// Parses a due-date text, completing a bare date with the end of its day.
pub fn parse_due_end_of_day(text: &str) -> (r: Option<i64>)
    ensures
        r == resolve_due_text(text@, end_of_day_suffix()),
{
    parse_due_with_suffix(text, "T23:59:59Z")
}

fn parse_due_with_suffix(text: &str, suffix: &str) -> (r: Option<i64>)
    ensures
        r == resolve_due_text(text@, suffix@),
{
    if text.unicode_len() == 0 {
        return None;
    }
    let full = parse_rfc3339_seconds(text, "");
    proof {
        reveal_strlit("");
        assert(text@ + ""@ =~= text@);
    }
    match full {
        Some(t) => Some(t),
        None => parse_rfc3339_seconds(text, suffix),
    }
}

} // verus!
