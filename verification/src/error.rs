//! The error taxonomy surfaced at the engine boundary.

use vstd::prelude::*;

verus! {

/// Everything that can go wrong inside the engine.
///
/// Filesystem failures are carried as text so that callers outside the
/// engine can attach their own operating-system error values.
#[derive(Debug)]
pub enum MassiveCsvError {
    /// A filesystem or operating-system failure, described as text.
    Io(String),
    /// A low-level quoting or escaping failure from parse or serialize.
    CsvParse(String),
    /// A row index at or beyond the row count: holds `(row, count)`.
    RowOutOfRange(usize, usize),
    /// A column name (or rendered column index) that does not exist.
    ColumnNotFound(String),
    /// The file holds no bytes at all.
    EmptyFile,
    /// Bytes that are not valid UTF-8 where text was required; holds the
    /// byte position at which decoding was attempted.
    InvalidUtf8(usize),
}

} // verus!
