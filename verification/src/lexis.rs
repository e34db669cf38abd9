//! The language of data: the strict six-type value system, the schema
//! vocabulary and the query-expression vocabulary.
//!
//! Every type validates where it is constructed, and its fields are
//! private. There is no type affinity and no silent coercion.

pub mod ast;
pub mod error;
pub mod identifier;
pub mod laws;
pub mod schema;
pub mod types;
pub mod value;

pub use crate::lexis::ast::{BinaryOperator, Expr, UnaryOperator};
pub use crate::lexis::error::LexisError;
pub use crate::lexis::identifier::{ColumnName, TableName};
pub use crate::lexis::schema::{ColumnDef, Nullability, TableDef, TextMaxLen};
pub use crate::lexis::types::SqlType;
pub use crate::lexis::value::{DateTimeValue, RealValue, Value};
