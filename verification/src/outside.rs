//! The crate's trusted boundary: thin wrappers around the outside crates
//! that supply cryptography, identifiers, clocks, calendars and the
//! currency table.
//!
//! Each wrapper's contract states no more than the wrapped function's own
//! source and documentation show. Results that depend only on the arguments
//! but are too long to state (a digest, an encoding, a formatted instant)
//! are given uninterpreted names.

use vstd::prelude::*;

use base64::Engine;
use sha2::Digest;

verus! {

/// The standard base64 encoding (with padding) of a byte string.
pub uninterp spec fn b64_of(bytes: Seq<u8>) -> Seq<char>;

/// Relies on base64's STANDARD engine: the encoding depends on the input
/// bytes alone.
#[verifier::external_body]
pub(crate) fn base64_encode(data: &[u8]) -> (r: String)
    ensures
        r@ == b64_of(data@),
{
    base64::engine::general_purpose::STANDARD.encode(data)
}

/// The SHA-256 digest of a byte string.
pub uninterp spec fn sha256_of(bytes: Seq<u8>) -> Seq<u8>;

/// Relies on sha2::Sha256: the 32-byte digest depends on the input bytes
/// alone.
#[verifier::external_body]
pub(crate) fn sha256_digest(data: &[u8]) -> (r: Vec<u8>)
    ensures
        r@ == sha256_of(data@),
        r@.len() == 32,
{
    sha2::Sha256::digest(data).to_vec()
}

/// Whether a currency code names a known ISO 4217 currency.
pub uninterp spec fn known_currency(code: Seq<char>) -> bool;

/// Relies on iso_currency::Currency::from_code: a pure lookup in the ISO
/// 4217 table, decided by the code's characters alone.
#[verifier::external_body]
pub(crate) fn currency_code_known(code: &str) -> (r: bool)
    ensures
        r == known_currency(code@),
{
    iso_currency::Currency::from_code(code).is_some()
}

/// Relies on uuid::Uuid::new_v4: a random identifier, so nothing is
/// promised of the value.
#[verifier::external_body]
pub(crate) fn fresh_id_value() -> u128 {
    uuid::Uuid::new_v4().as_u128()
}

/// Relies on chrono::Utc::now: the clock decides the value, so nothing is
/// promised of it.
#[verifier::external_body]
pub(crate) fn now_timestamp_micros() -> i64 {
    chrono::Utc::now().timestamp_micros()
}

/// The RFC 3339 rendering of the instant `micros` microseconds after the
/// Unix epoch.
pub uninterp spec fn rfc3339_of(micros: i64) -> Seq<char>;

/// What parsing an RFC 3339 string yields: the instant in microseconds, or
/// nothing when the text is not a valid RFC 3339 date-time.
pub uninterp spec fn parsed_rfc3339(s: Seq<char>) -> Option<i64>;

/// Relies on chrono::DateTime::from_timestamp_micros and to_rfc3339: the
/// rendering depends on the instant alone; every instant whose year has
/// four digits (from year 0 through year 9999) is in range; and for those
/// instants chrono's own RFC 3339 parser reads the rendering back to the
/// same instant. Years outside that span are written with an explicit sign
/// and are not read back by the strict parser, so nothing is promised of
/// them beyond the rendering itself.
#[verifier::external_body]
pub(crate) fn format_rfc3339(micros: i64) -> (r: Option<String>)
    ensures
        r matches Some(s) ==> s@ == rfc3339_of(micros),
        -62_167_219_200_000_000 <= micros <= 253_402_300_799_999_999 ==> r is Some,
        r matches Some(s) ==> (-62_167_219_200_000_000 <= micros <= 253_402_300_799_999_999
            ==> parsed_rfc3339(s@) == Some(micros)),
{
    match chrono::DateTime::from_timestamp_micros(micros) {
        Some(dt) => Some(dt.to_rfc3339()),
        None => None,
    }
}

/// Relies on chrono::DateTime::parse_from_rfc3339 and timestamp_micros:
/// the outcome depends on the text alone.
#[verifier::external_body]
pub(crate) fn parse_rfc3339(s: &str) -> (r: Option<i64>)
    ensures
        r == parsed_rfc3339(s@),
{
    match chrono::DateTime::parse_from_rfc3339(s) {
        Ok(dt) => Some(dt.timestamp_micros()),
        Err(_) => None,
    }
}

} // verus!
