//! The ways in which a run stops before it has written its rows.

use vstd::prelude::*;

verus! {

/// Why a run stops early. Each variant is a point where the tool gives up
/// instead of producing a report.
#[derive(Debug, Clone, Copy, PartialEq, Eq, Structural)]
pub enum Failure {
    /// A command printed bytes that are not UTF-8.
    OutputNotUtf8,
    /// The record count of the log is not an `i32`.
    RecordCountNotANumber,
    /// The record count minus two does not fit in an `i32`.
    RecordIndexOverflow,
    /// The file counts do not form valid JSON.
    InvalidCountsJson,
    /// A file count is not an integer that fits in an `i64`.
    CountNotInteger,
    /// The file counts of a folder add up to more than an `i64` holds.
    CountTotalOverflow,
    /// The last entry of the log has fewer fields than the report reads.
    MissingPreviousField,
    /// A field of the last entry that the report reads is not an `i64`.
    PreviousValueNotInteger,
    /// The change of a count does not fit in an `i64`.
    DifferenceOverflow,
}

} // verus!
