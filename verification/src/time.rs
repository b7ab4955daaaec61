//! Instants as plain numbers, and reading them from RFC 3339 text.
use vstd::prelude::*;

verus! {

/// An instant: whole seconds since the Unix epoch and the nanoseconds past
/// them.
#[derive(Debug, Clone, Copy, PartialEq, Eq)]
pub struct Instant {
    pub secs: i64,
    pub nanos: u32,
}

/// An instant in nanoseconds since the epoch.
pub open spec fn nanos_of(t: Instant) -> int {
    t.secs * 1_000_000_000 + t.nanos
}

/// What `DateTime::parse_from_rfc3339` gives for this text, as an instant.
pub uninterp spec fn rfc3339_instant(s: Seq<char>) -> Option<Instant>;

/// `chrono::DateTime::parse_from_rfc3339`: the instant written, whatever
/// offset it is written in, if the text reads as one. Its nanoseconds stay
/// under two seconds' worth (a leap second).
#[verifier::external_body]
pub(crate) fn parse_rfc3339(s: &str) -> (r: Option<Instant>)
    ensures
        r == rfc3339_instant(s@),
        r matches Some(t) ==> t.nanos < 2_000_000_000,
{
    match chrono::DateTime::parse_from_rfc3339(s) {
        Ok(t) => Some(Instant { secs: t.timestamp(), nanos: t.timestamp_subsec_nanos() }),
        Err(_) => None,
    }
}

} // verus!
