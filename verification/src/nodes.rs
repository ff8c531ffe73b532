//! The typed syntax tree that the generator consumes.

use vstd::prelude::*;
use crate::tokens::{Numeric, Operator, TType, Unary};

verus! {

/// A declared parameter of a function or closure.
#[derive(Debug, PartialEq)]
pub struct Arg {
    pub identifier: String,
    pub ttype: TType,
}

/// A declared field of a struct.
#[derive(Debug, PartialEq)]
pub struct Field {
    pub identifier: String,
    pub ttype: TType,
}

/// The leaves of an expression. A floating literal is held as the bit
/// pattern of its IEEE 754 double.
#[derive(Debug, PartialEq)]
pub enum Atom {
    Bool(bool),
    Id(String),
    Float(u64),
    String(String),
    Integer(i64),
    Call(String, Vec<Expr>),
}

/// An expression; every form but `Empty` starts with its resolved type.
#[derive(Debug, PartialEq)]
pub enum Expr {
    Empty,
    ListConstructor(TType, Vec<Expr>),
    Field(TType, String, usize, Box<Expr>),
    Indexed(TType, String, Box<Expr>, Box<Expr>),
    Call(TType, String, Box<Expr>, Vec<Expr>),
    Unary(TType, Unary, Box<Expr>),
    Binop(TType, Operator, Box<Expr>, Box<Expr>),
    Literal(TType, Atom),
    Closure(TType, Vec<Arg>, Vec<Statement>, Vec<String>),
}

/// A statement.
#[derive(Debug, PartialEq)]
pub enum Statement {
    Pass,
    Let(TType, String, Expr),
    Function(TType, String, Vec<Arg>, Vec<Statement>),
    Struct(TType, String, Vec<Field>),
    Return(TType, Expr, usize, usize),
    Expression(TType, Expr),
    If(TType, Expr, Vec<Statement>, Option<Vec<Statement>>),
    While(Expr, Vec<Statement>),
    For(Expr, Expr, Expr, Vec<Statement>),
    Break,
    Continue,
    Block(Vec<Statement>),
}

/// A whole program: its statements in order.
#[derive(Debug, PartialEq)]
pub struct Ast {
    pub program: Vec<Statement>,
}

impl Expr {
    /// The numeric class of the type resolved for this expression; the
    /// empty expression has none.
    pub open spec fn numeric(self) -> Numeric {
        match self {
            Expr::Empty => Numeric::Other,
            Expr::ListConstructor(t, _) => t.numeric(),
            Expr::Field(t, _, _, _) => t.numeric(),
            Expr::Indexed(t, _, _, _) => t.numeric(),
            Expr::Call(t, _, _, _) => t.numeric(),
            Expr::Unary(t, _, _) => t.numeric(),
            Expr::Binop(t, _, _, _) => t.numeric(),
            Expr::Literal(t, _) => t.numeric(),
            Expr::Closure(t, _, _, _) => t.numeric(),
        }
    }

    /// Computes the numeric class of this expression's type.
    pub fn numeric_kind(&self) -> (k: Numeric)
        ensures
            k == self.numeric(),
    {
        match self {
            Expr::Empty => Numeric::Other,
            Expr::ListConstructor(t, _) => t.numeric_kind(),
            Expr::Field(t, _, _, _) => t.numeric_kind(),
            Expr::Indexed(t, _, _, _) => t.numeric_kind(),
            Expr::Call(t, _, _, _) => t.numeric_kind(),
            Expr::Unary(t, _, _) => t.numeric_kind(),
            Expr::Binop(t, _, _, _) => t.numeric_kind(),
            Expr::Literal(t, _) => t.numeric_kind(),
            Expr::Closure(t, _, _, _) => t.numeric_kind(),
        }
    }
}

} // verus!
