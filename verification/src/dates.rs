//! Calendar rendering of Unix timestamps.
//!
//! The scanners key aggregates by calendar date and report building
//! changes with a human-readable timestamp.  Both renderings are the
//! UTC calendar conversion of an epoch-second count, computed by the
//! `chrono` crate; the library names the two results and states nothing
//! further of their shape.

use vstd::prelude::*;

verus! {

/// The `%Y-%m-%d` UTC calendar date of the Unix timestamp `ts`.
pub uninterp spec fn date_str_of(ts: int) -> Seq<char>;

/// The `%Y-%b-%d %H:%M:%S` UTC calendar rendering of the Unix
/// timestamp `ts`.
pub uninterp spec fn datetime_str_of(ts: int) -> Seq<char>;

/// Relies on `chrono::DateTime::from_timestamp` and the `Display` of
/// `chrono::NaiveDate`: a UTC conversion that depends on the timestamp
/// alone and is `Some` for every second count of at most ten decimal
/// digits.
#[verifier::external_body]
pub fn date_string(ts: u64) -> (r: String)
    requires
        ts <= 9_999_999_999,
    ensures
        r@ == date_str_of(ts as int),
{
    chrono::DateTime::from_timestamp(ts as i64, 0).unwrap().date_naive().to_string()
}

/// Relies on `chrono::DateTime::from_timestamp` and
/// `chrono::NaiveDateTime::format`: a UTC conversion that depends on the
/// timestamp alone, rendered with the locale-independent `%b` month
/// abbreviation.
#[verifier::external_body]
pub fn datetime_string(ts: u64) -> (r: String)
    requires
        ts <= 9_999_999_999,
    ensures
        r@ == datetime_str_of(ts as int),
{
    let dt = chrono::DateTime::from_timestamp(ts as i64, 0).unwrap().naive_utc();
    dt.format("%Y-%b-%d %H:%M:%S").to_string()
}

} // verus!
