//! The query-expression vocabulary.
//!
//! These types hold expressions and carry no evaluation: how `NULL`
//! propagates, how values compare and how arithmetic overflows is for an
//! executor to say.

use vstd::prelude::*;

use crate::lexis::identifier::ColumnName;
use crate::lexis::types::SqlType;
use crate::lexis::value::Value;

verus! {

/// A query expression.
#[derive(Debug, PartialEq)]
#[non_exhaustive]
#[allow(inconsistent_fields)]
pub enum Expr {
    /// A literal value.
    Literal(Value),
    /// A column, by name.
    Column(ColumnName),
    /// A unary operator and its operand.
    UnaryOp {
        /// The operator.
        op: UnaryOperator,
        /// The operand.
        operand: Box<Expr>,
    },
    /// A binary operator and its operands.
    BinaryOp {
        /// The operator.
        op: BinaryOperator,
        /// The left operand.
        left: Box<Expr>,
        /// The right operand.
        right: Box<Expr>,
    },
    /// `CAST(operand AS target)`. There is no other conversion.
    Cast {
        /// The operand.
        operand: Box<Expr>,
        /// The target type.
        target: SqlType,
    },
    /// `operand IS NULL`.
    IsNull(Box<Expr>),
    /// `operand IS NOT NULL`.
    IsNotNull(Box<Expr>),
}

/// Two expressions have the same shape, the same operators and types, and
/// the same values and names at their leaves.
pub open spec fn same_expr(a: Expr, b: Expr) -> bool
    decreases a,
{
    match (a, b) {
        (Expr::Literal(x), Expr::Literal(y)) => x@ == y@,
        (Expr::Column(x), Expr::Column(y)) => x@ == y@,
        (Expr::UnaryOp { op: f, operand: x }, Expr::UnaryOp { op: g, operand: y }) => f == g
            && same_expr(*x, *y),
        (
            Expr::BinaryOp { op: f, left: l, right: r },
            Expr::BinaryOp { op: g, left: m, right: s },
        ) => f == g && same_expr(*l, *m) && same_expr(*r, *s),
        (Expr::Cast { operand: x, target: t }, Expr::Cast { operand: y, target: u }) => t == u
            && same_expr(*x, *y),
        (Expr::IsNull(x), Expr::IsNull(y)) => same_expr(*x, *y),
        (Expr::IsNotNull(x), Expr::IsNotNull(y)) => same_expr(*x, *y),
        _ => false,
    }
}

impl Clone for Expr {
    fn clone(&self) -> (r: Self)
        ensures
            same_expr(*self, r),
        decreases self,
    {
        match self {
            Expr::Literal(value) => Expr::Literal(value.clone()),
            Expr::Column(name) => Expr::Column(name.clone()),
            Expr::UnaryOp { op, operand } => Expr::UnaryOp {
                op: *op,
                operand: Box::new((&**operand).clone()),
            },
            Expr::BinaryOp { op, left, right } => Expr::BinaryOp {
                op: *op,
                left: Box::new((&**left).clone()),
                right: Box::new((&**right).clone()),
            },
            Expr::Cast { operand, target } => Expr::Cast {
                operand: Box::new((&**operand).clone()),
                target: *target,
            },
            Expr::IsNull(operand) => Expr::IsNull(Box::new((&**operand).clone())),
            Expr::IsNotNull(operand) => Expr::IsNotNull(Box::new((&**operand).clone())),
        }
    }
}

/// A unary operator.
#[derive(Debug, Clone, Copy, PartialEq, Eq, Hash)]
#[non_exhaustive]
pub enum UnaryOperator {
    /// Logical negation.
    Not,
    /// Arithmetic negation.
    Neg,
}

/// A binary operator.
#[derive(Debug, Clone, Copy, PartialEq, Eq, Hash)]
#[non_exhaustive]
pub enum BinaryOperator {
    /// `=`
    Eq,
    /// `<>` or `!=`
    Ne,
    /// `<`
    Lt,
    /// `<=`
    Le,
    /// `>`
    Gt,
    /// `>=`
    Ge,
    /// `AND`
    And,
    /// `OR`
    Or,
    /// `+`
    Add,
    /// `-`
    Sub,
    /// `*`
    Mul,
    /// `/`
    Div,
    /// `%`
    Mod,
}

} // verus!
