//! The strict six-type system.
//!
//! A column declares exactly one of six types. A value matches it, or is
//! `NULL` in a nullable column. Every implicit conversion is a type error.

use vstd::prelude::*;

use crate::lexis::error::LexisError;

verus! {

/// The six types that a column may declare.
#[derive(Debug, Clone, Copy, PartialEq, Eq, Hash, Structural)]
#[non_exhaustive]
pub enum SqlType {
    /// 64-bit signed integer.
    Integer,
    /// IEEE-754 double.
    Real,
    /// UTF-8 text, optionally length-bounded by the declaring column.
    Text,
    /// Opaque bytes.
    Blob,
    /// `true` or `false`, distinct from `Integer`.
    Boolean,
    /// 64-bit nanosecond UTC epoch.
    Datetime,
}

/// Two types may be compared without an explicit `CAST`: they are the same,
/// or both are numeric.
pub open spec fn comparable(left: SqlType, right: SqlType) -> bool {
    ||| left == right
    ||| left is Integer && right is Real
    ||| left is Real && right is Integer
}

/// Comparability does not depend on the order of the operands.
pub proof fn comparable_is_symmetric(left: SqlType, right: SqlType)
    ensures
        comparable(left, right) == comparable(right, left),
{
}

/// Every type is comparable with itself.
pub proof fn comparable_is_reflexive(sql_type: SqlType)
    ensures
        comparable(sql_type, sql_type),
{
}

/// The SQL keyword of a type.
pub open spec fn keyword(sql_type: SqlType) -> Seq<char> {
    match sql_type {
        SqlType::Integer => "INTEGER"@,
        SqlType::Real => "REAL"@,
        SqlType::Text => "TEXT"@,
        SqlType::Blob => "BLOB"@,
        SqlType::Boolean => "BOOLEAN"@,
        SqlType::Datetime => "DATETIME"@,
    }
}

impl SqlType {
    /// Check that the two types may be compared without an explicit `CAST`.
    /// This checks types only; it compares no values.
    pub fn check_comparable(self, other: Self) -> (r: Result<(), LexisError>)
        ensures
            match r {
                Ok(()) => comparable(self, other),
                Err(e) => !comparable(self, other) && e == (LexisError::IncomparableTypes {
                    left: self,
                    right: other,
                }),
            },
            r is Ok <==> self == other || set![self, other] == set![
                SqlType::Integer,
                SqlType::Real,
            ],
    {
        let numeric = match self {
            SqlType::Integer => match other {
                SqlType::Real => true,
                _ => false,
            },
            SqlType::Real => match other {
                SqlType::Integer => true,
                _ => false,
            },
            _ => false,
        };
        proof {
            let pair = set![self, other];
            let both = set![SqlType::Integer, SqlType::Real];
            assert(pair.contains(self) && pair.contains(other));
            assert(both.contains(SqlType::Integer) && both.contains(SqlType::Real));
            if numeric {
                assert(pair =~= both);
            }
            if pair == both {
                assert(both.contains(self) && both.contains(other));
            }
        }
        if self == other || numeric {
            Ok(())
        } else {
            Err(LexisError::IncomparableTypes { left: self, right: other })
        }
    }

    /// The type's SQL keyword.
    pub fn as_str(self) -> (s: &'static str)
        ensures
            s@ == keyword(self),
    {
        match self {
            SqlType::Integer => "INTEGER",
            SqlType::Real => "REAL",
            SqlType::Text => "TEXT",
            SqlType::Blob => "BLOB",
            SqlType::Boolean => "BOOLEAN",
            SqlType::Datetime => "DATETIME",
        }
    }

    /// The type's SQL keyword, as an owned string.
    pub fn to_string(&self) -> (s: String)
        ensures
            s@ == keyword(*self),
    {
        (*self).as_str().to_owned()
    }
}

} // verus!
