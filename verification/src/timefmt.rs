//! Timestamp parsing at the calendar-text boundary.
//!
//! A reading's timestamp arrives as an RFC 3339 date-time string and is held
//! internally as milliseconds since the Unix epoch. The parse itself is done
//! by the `bson` crate; what it yields on a given text is named here.

use vstd::prelude::*;

verus! {

/// What the RFC 3339 parser yields on a given text: `Some` of the instant as
/// milliseconds since the Unix epoch when the text is a valid RFC 3339
/// date-time, `None` otherwise. The result depends on the characters alone.
pub uninterp spec fn rfc3339_instant(s: Seq<char>) -> Option<i64>;

/// Relies on `bson::DateTime::parse_rfc3339_str`, which parses an RFC 3339
/// date-time string (a pure function of the text), and on
/// `bson::DateTime::timestamp_millis`, which returns the parsed instant as
/// milliseconds since the Unix epoch.
#[verifier::external_body]
pub(crate) fn parse_rfc3339_millis(s: &str) -> (r: Option<i64>)
    ensures
        r == rfc3339_instant(s@),
{
    match bson::DateTime::parse_rfc3339_str(s) {
        Ok(dt) => Some(dt.timestamp_millis()),
        Err(_) => None,
    }
}

} // verus!
