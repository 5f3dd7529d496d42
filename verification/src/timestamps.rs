//! RFC 3339 timestamps of session log lines, as Unix milliseconds.
use vstd::prelude::*;

verus! {

/// What `chrono::DateTime::parse_from_rfc3339` followed by
/// `timestamp_millis` gives for a text; `None` when it is not RFC 3339.
pub uninterp spec fn rfc3339_millis(s: Seq<char>) -> Option<i64>;

/// Trusted: calls `chrono::DateTime::parse_from_rfc3339` and converts the
/// parsed instant with `timestamp_millis`. The contract only names the
/// result (a function of the text alone); which texts parse and to what is
/// chrono's and is not restated here.
#[verifier::external_body]
pub(crate) fn parse_ts_ms(ts: &str) -> (r: Option<i64>)
    ensures
        r == rfc3339_millis(ts@),
{
    chrono::DateTime::parse_from_rfc3339(ts).ok().map(|dt| dt.timestamp_millis())
}

/// The start instant of a log line: its timestamp parsed as RFC 3339; a
/// line without a (parsable) timestamp has none and is skipped.
pub fn line_started_at(timestamp: Option<&str>) -> (r: Option<i64>)
    ensures
        r == match timestamp {
            Some(t) => rfc3339_millis(t@),
            None => None,
        },
{
    match timestamp {
        Some(t) => parse_ts_ms(t),
        None => None,
    }
}

} // verus!
