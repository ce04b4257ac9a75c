use vstd::prelude::*;

verus! {

/// The instant an RFC 3339 text denotes, in milliseconds since the Unix epoch;
/// `None` for a text that is not RFC 3339.
pub uninterp spec fn rfc3339_millis(s: Seq<char>) -> Option<i64>;

/// Relies on chrono's `DateTime::parse_from_rfc3339`, read out with
/// `DateTime::timestamp_millis`: the result depends on the text alone, and a
/// malformed text is an error, not a panic.
#[verifier::external_body]
fn parse_rfc3339_millis(s: &str) -> (r: Option<i64>)
    ensures
        r == rfc3339_millis(s@),
{
    match chrono::DateTime::parse_from_rfc3339(s) {
        Ok(t) => Some(t.timestamp_millis()),
        Err(_) => None,
    }
}

/// The time of a stored record: its RFC 3339 text, or `now` when the text
/// cannot be read, so that one bad row never stops a read.
pub fn event_time(text: &str, now: i64) -> (r: i64)
    ensures
        r == match rfc3339_millis(text@) {
            Some(t) => t,
            None => now,
        },
{
    match parse_rfc3339_millis(text) {
        Some(t) => t,
        None => now,
    }
}

} // verus!
