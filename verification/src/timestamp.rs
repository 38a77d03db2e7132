//! Instants in UTC, and their RFC 3339 text form.

use vstd::prelude::*;

verus! {

/// An instant in UTC: whole seconds since 1970-01-01T00:00:00Z and the
/// nanoseconds past that second.
#[derive(Clone, Copy, Debug, PartialEq, Eq, Structural)]
pub struct Timestamp {
    pub secs: i64,
    pub nanos: u32,
}

/// The instant that an RFC 3339 date and time denotes, as
/// `chrono::DateTime::parse_from_rfc3339` reads it; `None` where it rejects
/// the text.
pub uninterp spec fn rfc3339_instant(text: Seq<char>) -> Option<Timestamp>;

/// The RFC 3339 form of the instant `secs` seconds and `nanos` nanoseconds after
/// the epoch, as `chrono::DateTime::to_rfc3339` writes it; `None` where
/// `chrono::DateTime::from_timestamp` holds no such instant.
pub uninterp spec fn rfc3339_text(secs: i64, nanos: u32) -> Option<Seq<char>>;

/// Calls `chrono::DateTime::parse_from_rfc3339` and reads the seconds and
/// nanoseconds off what it returns. That the outcome depends on the text alone
/// is taken on trust; it is named [`rfc3339_instant`].
#[verifier::external_body]
fn parse_with_chrono(text: &str) -> (r: Option<Timestamp>)
    ensures
        r == rfc3339_instant(text@),
{
    match chrono::DateTime::parse_from_rfc3339(text) {
        Ok(at) => Some(Timestamp { secs: at.timestamp(), nanos: at.timestamp_subsec_nanos() }),
        Err(_) => None,
    }
}

/// Calls `chrono::DateTime::from_timestamp` and, where that holds the instant,
/// `chrono::DateTime::to_rfc3339` on it. That the outcome depends on the two
/// numbers alone is taken on trust; it is named [`rfc3339_text`].
#[verifier::external_body]
fn format_with_chrono(secs: i64, nanos: u32) -> (r: Option<String>)
    ensures
        rfc3339_text(secs, nanos) == match r {
            Some(text) => Some(text@),
            None => None,
        },
{
    match chrono::DateTime::from_timestamp(secs, nanos) {
        Some(at) => Some(at.to_rfc3339()),
        None => None,
    }
}

impl Timestamp {
    /// `self` is strictly earlier than `other`.
    pub open spec fn before(self, other: Timestamp) -> bool {
        self.secs < other.secs || (self.secs == other.secs && self.nanos < other.nanos)
    }

    /// Whether `self` is strictly earlier than `other`.
    pub fn is_before(&self, other: &Timestamp) -> (r: bool)
        ensures
            r == self.before(*other),
    {
        self.secs < other.secs || (self.secs == other.secs && self.nanos < other.nanos)
    }

    /// Reads an RFC 3339 date and time; `None` where the text is none.
    pub fn parse_rfc3339(text: &str) -> (r: Option<Timestamp>)
        ensures
            r == rfc3339_instant(text@),
    {
        parse_with_chrono(text)
    }

    /// The RFC 3339 form of the instant; `None` where the calendar does not
    /// reach it.
    pub fn to_rfc3339(&self) -> (r: Option<String>)
        ensures
            rfc3339_text(self.secs, self.nanos) == match r {
                Some(text) => Some(text@),
                None => None,
            },
    {
        format_with_chrono(self.secs, self.nanos)
    }
}

} // verus!
