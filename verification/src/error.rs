//! Diagnostics of the generator.

use vstd::prelude::*;
use vstd::string::StringExecFns;

verus! {

/// Why a program could not be lowered.
#[derive(Clone, Copy, Debug, PartialEq, Eq)]
pub enum ErrorKind {
    /// An arithmetic or relational operator whose left operand is neither
    /// an integer nor a float.
    NonNumericOperand,
    /// An expression that cannot be assigned to.
    UnsupportedAssignmentTarget,
    /// A name that is bound nowhere it is looked for.
    UnresolvedIdentifier,
    /// An infix operator that has no lowering.
    UnsupportedOperator,
    /// The prefix operator `+`.
    UnaryPositive,
    /// `break` with no enclosing loop.
    BreakOutsideLoop,
    /// `continue`, which has no lowering.
    ContinueUnsupported,
    /// A slot, count or index that does not fit the operand of its
    /// instruction.
    OperandOutOfRange,
    /// No label id is left.
    LabelsExhausted,
}

/// A diagnostic: what went wrong, and the source file being compiled.
#[derive(Debug, PartialEq, Eq)]
pub struct NovaError {
    pub kind: ErrorKind,
    pub filepath: String,
}

impl ErrorKind {
    /// The message text of each kind.
    pub open spec fn message(self) -> Seq<char> {
        match self {
            ErrorKind::NonNumericOperand => "operator needs an integer or float operand"@,
            ErrorKind::UnsupportedAssignmentTarget => "unsupported assignment target"@,
            ErrorKind::UnresolvedIdentifier => "unresolved identifier"@,
            ErrorKind::UnsupportedOperator => "unsupported operator"@,
            ErrorKind::UnaryPositive => "unary plus is not supported"@,
            ErrorKind::BreakOutsideLoop => "break outside loop"@,
            ErrorKind::ContinueUnsupported => "continue is not supported"@,
            ErrorKind::OperandOutOfRange => "operand out of range"@,
            ErrorKind::LabelsExhausted => "out of jump labels"@,
        }
    }
}

impl NovaError {
    /// The message of this diagnostic.
    pub fn message(&self) -> (text: String)
        ensures
            text@ == self.kind.message(),
    {
        match self.kind {
            ErrorKind::NonNumericOperand => String::from_str(
                "operator needs an integer or float operand",
            ),
            ErrorKind::UnsupportedAssignmentTarget => String::from_str(
                "unsupported assignment target",
            ),
            ErrorKind::UnresolvedIdentifier => String::from_str("unresolved identifier"),
            ErrorKind::UnsupportedOperator => String::from_str("unsupported operator"),
            ErrorKind::UnaryPositive => String::from_str("unary plus is not supported"),
            ErrorKind::BreakOutsideLoop => String::from_str("break outside loop"),
            ErrorKind::ContinueUnsupported => String::from_str("continue is not supported"),
            ErrorKind::OperandOutOfRange => String::from_str("operand out of range"),
            ErrorKind::LabelsExhausted => String::from_str("out of jump labels"),
        }
    }
}

} // verus!
