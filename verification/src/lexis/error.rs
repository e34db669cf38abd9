//! Errors of the validating constructors and of the type-checking rules.

use vstd::prelude::*;

use crate::lexis::types::SqlType;

verus! {

/// Errors raised by the validating constructors and the type-checking
/// rules.
#[derive(Debug, PartialEq, Eq)]
#[non_exhaustive]
#[allow(inconsistent_fields)]
pub enum LexisError {
    /// A column or table identifier was empty.
    EmptyIdentifier {
        /// The identifier class that was empty (`"column"` or `"table"`).
        kind: &'static str,
    },
    /// A `REAL` value was NaN.
    NanReal {
        /// The bits of the rejected value.
        value: u64,
    },
    /// A `TEXT` column's declared maximum length was zero.
    TextMaxLenZero,
    /// A maximum length was declared on a column that is not `TEXT`.
    TextMaxLenOnNonText {
        /// The column's declared type.
        sql_type: SqlType,
    },
    /// Two types cannot be compared without an explicit `CAST`.
    IncomparableTypes {
        /// The left operand's type.
        left: SqlType,
        /// The right operand's type.
        right: SqlType,
    },
    /// A table was declared without columns.
    EmptyColumnList {
        /// The table's name.
        table: String,
    },
    /// A table declared one column name more than once.
    DuplicateColumn {
        /// The table's name.
        table: String,
        /// The column name that repeated.
        column: String,
    },
    /// `NULL` was bound to a `NOT NULL` column.
    NullNotAllowed {
        /// The column's name.
        column: String,
    },
    /// A value's type was not its column's declared type.
    TypeMismatch {
        /// The column's name.
        column: String,
        /// The column's declared type.
        expected: SqlType,
        /// The value's type.
        actual: SqlType,
    },
    /// A `TEXT` value was longer than its column's declared maximum.
    TextTooLong {
        /// The column's name.
        column: String,
        /// The column's declared maximum length.
        max_len: u32,
        /// The value's length in characters.
        actual_len: usize,
    },
}

} // verus!
