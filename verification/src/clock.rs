//! Identifiers and wall-clock time, from the `ulid` and `chrono` crates.
use vstd::prelude::*;
use crate::transcript::opt_text;

verus! {

/// A fresh ULID rendered as text (`ulid::Ulid::new().to_string()`): the
/// crate documents the canonical form as 26 Crockford base-32 characters.
/// What the identifier is depends on the clock and a random source, so
/// nothing more is stated.
#[verifier::external_body]
pub fn new_ulid() -> (id: String)
    ensures
        id@.len() == 26,
{
    ulid::Ulid::new().to_string()
}

/// The current UTC time in RFC 3339 form (`chrono::Utc::now().to_rfc3339()`).
/// It depends on the clock, so nothing is stated of it.
#[verifier::external_body]
pub fn now_rfc3339() -> String {
    chrono::Utc::now().to_rfc3339()
}

/// An RFC 3339 timestamp rewritten in UTC, when it parses.
pub uninterp spec fn utc_rfc3339(s: Seq<char>) -> Option<Seq<char>>;

/// `chrono::DateTime::parse_from_rfc3339(s)` taken to UTC and written back
/// with `to_rfc3339()`: `None` when `s` is not valid RFC 3339. The text is
/// named, not described.
#[verifier::external_body]
pub fn to_utc_rfc3339(s: &str) -> (r: Option<String>)
    ensures
        opt_text(r) == utc_rfc3339(s@),
{
    chrono::DateTime::parse_from_rfc3339(s).ok().map(|d| d.with_timezone(&chrono::Utc).to_rfc3339())
}

} // verus!
