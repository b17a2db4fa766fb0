use vstd::prelude::*;

use crate::types::ColumnType;

verus! {

/// Why a schema cannot be planned.
#[derive(Debug, Clone, Copy, PartialEq, Eq, Structural)]
pub enum SchemaError {
    /// Two fields share a name.
    DuplicateFieldName,
    /// The table already holds rows, so its layout is fixed.
    LayoutFrozen,
    /// A relation names a table that does not exist, or a one-to-many
    /// relation points to a table created no later than its own: targets of
    /// one-to-many relations come after the declaring table, which keeps the
    /// expansion of nested rows finite.
    InvalidRelationTarget,
}

/// Why a row cannot be inserted.
#[derive(Debug, PartialEq)]
pub enum EncodeError {
    /// The value given for `column` is not of the column's type.
    TypeMismatch { column: String, expected: ColumnType, actual: Option<ColumnType> },
    /// A string is longer than 65535 bytes, or the heap could no longer
    /// address it with a 4-byte offset.
    ValueTooLarge,
}

/// Why stored bytes cannot be read.
#[derive(Debug, Clone, Copy, PartialEq, Eq, Structural)]
pub enum StorageError {
    /// A row, column or byte range beyond what is stored.
    OutOfBounds,
    /// A heap offset that does not lead to a complete UTF-8 payload.
    CorruptHeap,
}

} // verus!
