//! The calls into outside crates that the tagged-literal forms need:
//! parsing and rendering of unique identifiers and of RFC 3339
//! timestamps. Each call sits behind one trusted wrapper whose result is
//! named by an uninterpreted function of the arguments alone.

use vstd::prelude::*;
use crate::value::instant_in_range;

verus! {

/// The 128-bit identifier a piece of text denotes, if any.
pub uninterp spec fn uuid_of_text(s: Seq<char>) -> Option<u128>;

/// The canonical hyphenated text of a 128-bit identifier.
pub uninterp spec fn uuid_text_of(bits: u128) -> Seq<char>;

/// The epoch milliseconds an RFC 3339 text denotes, if any, truncated to
/// millisecond precision.
pub uninterp spec fn rfc3339_millis_of(s: Seq<char>) -> Option<i64>;

/// The RFC 3339 rendering of an instant: universal time, millisecond
/// precision, `Z` suffix.
pub uninterp spec fn rfc3339_text_of(millis: i64) -> Seq<char>;

/// Relies on `uuid::Uuid::parse_str` and `Uuid::as_u128`: the outcome is a
/// function of the text alone, and any hyphenated text that `to_string`
/// produced parses back.
#[verifier::external_body]
pub fn parse_uuid(s: &str) -> (r: Option<u128>)
    ensures
        r == uuid_of_text(s@),
{
    uuid::Uuid::parse_str(s).ok().map(|u| u.as_u128())
}

/// Relies on `uuid::Uuid::from_u128` and the `Display` impl: the canonical
/// form is 36 hyphenated hex characters, a pure function of the bits, and
/// `parse_str` accepts it and returns the same identifier.
#[verifier::external_body]
pub fn uuid_to_text(bits: u128) -> (r: String)
    ensures
        r@ == uuid_text_of(bits),
        uuid_of_text(r@) == Some(bits),
        r@.len() == 36,
{
    uuid::Uuid::from_u128(bits).to_string()
}

/// Relies on `chrono::DateTime::parse_from_rfc3339` and
/// `DateTime::timestamp_millis`: the outcome is a function of the text
/// alone; the offset in the text is folded into the instant.
#[verifier::external_body]
pub fn parse_rfc3339(s: &str) -> (r: Option<i64>)
    ensures
        r == rfc3339_millis_of(s@),
{
    chrono::DateTime::parse_from_rfc3339(s).ok().map(|dt| dt.timestamp_millis())
}

/// Relies on `chrono::DateTime::from_timestamp_millis` (defined on the
/// whole four-digit-year range) and `DateTime::to_rfc3339_opts` with
/// millisecond precision and the `Z` suffix: the rendering is a function
/// of the instant alone, and `parse_from_rfc3339` reads it back to the
/// same millisecond count.
#[verifier::external_body]
pub fn instant_to_text(millis: i64) -> (r: String)
    requires
        instant_in_range(millis as int),
    ensures
        r@ == rfc3339_text_of(millis),
        rfc3339_millis_of(r@) == Some(millis),
{
    chrono::DateTime::from_timestamp_millis(millis)
        .unwrap()
        .to_rfc3339_opts(chrono::SecondsFormat::Millis, true)
}

} // verus!
