use vstd::prelude::*;

verus! {

/// Why an operation on a column store or a segment was refused.
#[derive(Debug, Clone, Copy, PartialEq, Eq, Structural)]
pub enum Error {
    /// Two values of different kinds met under one column name.
    TypeMismatch,
    /// A count or a byte length does not fit the 32-bit fields of the format.
    EncodingOverflow,
    /// The block compressor reported a failure.
    Packaging,
    /// A column that the encoder was asked to write is not in the store.
    MissingColumn,
    /// The columns of the store do not all have the same number of rows.
    RowCountMismatch,
    /// The rows are not in the order of their timestamps, or the
    /// dictionary of a string column is not in order.
    NotSorted,
    /// No bitmap words were supplied for a string column, or not one list
    /// per dictionary entry.
    MissingBitmap,
    /// The store has no rows, so a segment of it has no time range.
    EmptySegment,
}

} // verus!
