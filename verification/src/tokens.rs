//! Type tags and operator kinds carried by the syntax tree.

use vstd::prelude::*;

verus! {

/// The static type resolved for a node.
#[derive(Debug, PartialEq)]
pub enum TType {
    NoType,
    Any,
    Int,
    Float,
    Bool,
    Str,
    Void,
    Custom(String),
    List(Box<TType>),
    Function(Vec<TType>, Box<TType>),
    Generic(String),
}

/// Prefix operators.
#[derive(Clone, Copy, Debug, PartialEq, Eq)]
pub enum Unary {
    Positive,
    Negitive,
    Not,
}

/// Infix operators.
#[derive(Clone, Copy, Debug, PartialEq, Eq)]
pub enum Operator {
    RightArrow,
    GreaterThan,
    LessThan,
    Assignment,
    Addition,
    Subtraction,
    Division,
    Multiplication,
    Equality,
    Access,
    ListAccess,
    Call,
    Modulo,
    NotEqual,
    Not,
    DoubleColon,
    Colon,
    GtrOrEqu,
    LssOrEqu,
    And,
    Or,
    AdditionAssignment,
    SubtractionAssignment,
}

/// How an operand type selects between the integer and the floating
/// variant of an arithmetic or relational instruction.
#[derive(Clone, Copy, Debug, PartialEq, Eq)]
pub enum Numeric {
    Int,
    Float,
    Other,
}

impl TType {
    /// The numeric class of a type: `Int`, `Float`, or neither.
    pub open spec fn numeric(self) -> Numeric {
        match self {
            TType::Int => Numeric::Int,
            TType::Float => Numeric::Float,
            _ => Numeric::Other,
        }
    }

    /// Computes the numeric class of this type.
    pub fn numeric_kind(&self) -> (k: Numeric)
        ensures
            k == self.numeric(),
    {
        match self {
            TType::Int => Numeric::Int,
            TType::Float => Numeric::Float,
            _ => Numeric::Other,
        }
    }

    /// Whether this is the `Void` type.
    pub fn is_void(&self) -> (b: bool)
        ensures
            b == (*self is Void),
    {
        match self {
            TType::Void => true,
            _ => false,
        }
    }
}

} // verus!
