//! The errors that the store reports.

use vstd::prelude::*;

verus! {

/// One of the three files that together hold a persisted index.
#[derive(Clone, Copy, Debug, PartialEq, Eq, Structural)]
pub enum IndexFile {
    /// The series names, one per line, in identifier order.
    Names,
    /// The sample sequences, one record per series, in identifier order.
    Timeseries,
    /// The posting sets, one record per `(key, value)` label.
    Index,
}

/// Why an operation of the store failed.
#[derive(Clone, Copy, Debug, PartialEq, Eq, Structural)]
pub enum DbError {
    /// A sample without any label was offered for ingestion.
    InvalidInput,
    /// A record of a persisted index cannot be decoded. `line` counts the
    /// records of `file` from zero.
    CorruptData { file: IndexFile, line: usize },
    /// The registry and the column store disagree, or an identifier has lost
    /// its name.
    InternalConsistency,
    /// All series identifiers that fit in 32 bits are taken.
    SeriesLimit,
}

} // verus!
