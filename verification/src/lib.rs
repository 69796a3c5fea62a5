//! Scans over a fixed-offset Wi-Fi access log.
//!
//! The input is a line-oriented log in which every field sits at a fixed
//! byte offset: a decimal timestamp, a device identifier, an access-point
//! identifier, a decimal byte count and a direction token.  Four scanners
//! walk such a log in a single forward pass: a top-vendor ranking, a
//! per-day/per-access-point/per-direction byte aggregation, a time-windowed
//! unique-device extraction, and a building-change detection.  Each scanner
//! either completes a full pass or fails fast on the first malformed line
//! or unresolvable identifier.

use vstd::prelude::*;

pub mod aggregate;
pub mod building;
pub mod bytemap;
pub mod dates;
pub mod ranking;
pub mod record;
pub mod registry;
pub mod seen;
pub mod vendor;
pub mod window;

verus! {

/// Why a scan aborted.  Every scanner either returns a complete result or
/// the error describing the first offending line, in scan order.
#[derive(Debug, PartialEq, Eq)]
pub enum LogError {
    /// A line is shorter than the last byte offset the scan must read.
    ShortLine,
    /// A decimal field holds a byte that is not an ASCII digit.
    BadNumber,
    /// A device's vendor identifier is absent from the vendor table;
    /// carries the six offending bytes.
    UnknownVendor(Vec<u8>),
    /// An access-point identifier is absent from the registry;
    /// carries the fifteen offending bytes.
    UnknownAccessPoint(Vec<u8>),
    /// An accumulated byte total left `u64`.
    Overflow,
}

} // verus!
