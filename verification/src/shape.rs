//! The two classes of forms that the stack discipline knows: expressions
//! that stand for one value, and statements that leave the stack as deep
//! as they found it.

use vstd::prelude::*;
use crate::effect::{atom_effect, block_effect, call_effect, expr_effect, exprs_effect, stmt_effect};
use crate::nodes::{Atom, Expr, Statement};
use crate::tokens::Operator;

verus! {

/// The infix operators that take two values and give one.
pub open spec fn gives_a_value(op: Operator) -> bool {
    match op {
        Operator::Addition
        | Operator::Subtraction
        | Operator::Multiplication
        | Operator::Division
        | Operator::Modulo
        | Operator::GreaterThan
        | Operator::LessThan
        | Operator::Equality
        | Operator::NotEqual
        | Operator::GtrOrEqu
        | Operator::LssOrEqu
        | Operator::And
        | Operator::Or => true,
        _ => false,
    }
}

/// Whether an expression stands for one value: a literal, an identifier,
/// a closure, `clone` of a value, or a list, field, element, negation or
/// value-giving operation built from values.
pub open spec fn is_value(e: Expr) -> bool
    decreases e, 1nat,
{
    match e {
        Expr::Empty => false,
        Expr::ListConstructor(_, list) => all_values(list@, list@.len()),
        Expr::Field(_, _, _, base) => is_value(*base),
        Expr::Indexed(_, _, index, base) => is_value(*index) && is_value(*base),
        Expr::Call(_, _, _, _) => false,
        Expr::Unary(_, _, operand) => is_value(*operand),
        Expr::Binop(_, op, lhs, rhs) => gives_a_value(op) && is_value(*lhs) && is_value(*rhs),
        Expr::Literal(_, atom) => match atom {
            Atom::Call(name, args) => call_effect(name@) == Some(0int) && args@.len() == 1
                && is_value(args@[0]),
            _ => true,
        },
        Expr::Closure(_, _, _, _) => true,
    }
}

/// Whether the first `n` expressions of a list all stand for a value.
pub open spec fn all_values(list: Seq<Expr>, n: nat) -> bool
    decreases list, n,
{
    if n == 0 || n > list.len() {
        true
    } else {
        all_values(list, (n - 1) as nat) && is_value(list[n - 1])
    }
}

/// Whether an expression is evaluated for what it does and leaves no
/// value: the empty expression, an assignment of a value, a compound
/// assignment between values, or `print` or `free` of a value.
pub open spec fn is_action(e: Expr) -> bool {
    match e {
        Expr::Empty => true,
        Expr::Binop(_, op, lhs, rhs) => match op {
            Operator::Assignment => is_value(*rhs),
            Operator::AdditionAssignment | Operator::SubtractionAssignment => is_value(*lhs)
                && is_value(*rhs),
            _ => false,
        },
        Expr::Literal(_, Atom::Call(name, args)) => call_effect(name@) == Some(-1int)
            && args@.len() == 1 && is_value(args@[0]),
        _ => false,
    }
}

/// Whether a statement uses up exactly what its expressions leave: a
/// binding of a value, an action, a return of a value from a non-void
/// unit or of nothing from a void one, a declaration, `break`, and a
/// conditional, loop or block whose tests are values, whose initialiser
/// and step are actions, and whose statements are balanced.
pub open spec fn is_balanced(s: Statement) -> bool
    decreases s, 0nat,
{
    match s {
        Statement::Pass => true,
        Statement::Let(_, _, init) => is_value(init),
        Statement::Function(_, _, _, _) => true,
        Statement::Struct(_, _, _) => true,
        Statement::Return(t, value, _, _) => if t is Void {
            is_action(value)
        } else {
            is_value(value)
        },
        Statement::Expression(_, e) => is_action(e),
        Statement::If(_, test, body, alternative) => is_value(test) && all_balanced(
            body@,
            body@.len(),
        ) && match alternative {
            None => true,
            Some(alt) => all_balanced(alt@, alt@.len()),
        },
        Statement::While(test, body) => is_value(test) && all_balanced(body@, body@.len()),
        Statement::For(init, test, step, body) => is_action(init) && is_value(test) && is_action(
            step,
        ) && all_balanced(body@, body@.len()),
        Statement::Break => true,
        Statement::Continue => false,
        Statement::Block(body) => all_balanced(body@, body@.len()),
    }
}

/// Whether the first `n` statements of a block are all balanced.
pub open spec fn all_balanced(block: Seq<Statement>, n: nat) -> bool
    decreases block, n,
{
    if n == 0 || n > block.len() {
        true
    } else {
        all_balanced(block, (n - 1) as nat) && is_balanced(block[n - 1])
    }
}

/// A value has the effect of one value.
pub proof fn lemma_value_effect(e: Expr)
    requires
        is_value(e),
    ensures
        expr_effect(e) == Some(1int),
    decreases e, 1nat,
{
    match e {
        Expr::ListConstructor(_, list) => {
            lemma_values_effect(list@, list@.len());
        },
        Expr::Field(_, _, _, base) => {
            lemma_value_effect(*base);
        },
        Expr::Indexed(_, _, index, base) => {
            lemma_value_effect(*index);
            lemma_value_effect(*base);
        },
        Expr::Unary(_, _, operand) => {
            lemma_value_effect(*operand);
        },
        Expr::Binop(_, _, lhs, rhs) => {
            lemma_value_effect(*lhs);
            lemma_value_effect(*rhs);
        },
        Expr::Literal(_, atom) => {
            match atom {
                Atom::Call(_, args) => {
                    lemma_value_effect(args@[0]);
                    assert(exprs_effect(args@, 0) == Some(0int));
                    assert(exprs_effect(args@, 1) == Some(1int));
                    assert(atom_effect(atom) == Some(1int));
                },
                _ => {},
            }
        },
        _ => {},
    }
}

/// `n` values have the effect of `n` values.
pub proof fn lemma_values_effect(list: Seq<Expr>, n: nat)
    requires
        n <= list.len(),
        all_values(list, n),
    ensures
        exprs_effect(list, n) == Some(n as int),
    decreases list, n,
{
    if n > 0 {
        lemma_values_effect(list, (n - 1) as nat);
        lemma_value_effect(list[n - 1]);
    }
}

/// An action has no effect on the depth of the stack.
pub proof fn lemma_action_effect(e: Expr)
    requires
        is_action(e),
    ensures
        expr_effect(e) == Some(0int),
{
    match e {
        Expr::Binop(_, op, lhs, rhs) => {
            lemma_value_effect(*rhs);
            if !(op is Assignment) {
                lemma_value_effect(*lhs);
            }
        },
        Expr::Literal(_, Atom::Call(name, args)) => {
            lemma_value_effect(args@[0]);
            assert(exprs_effect(args@, 0) == Some(0int));
            assert(exprs_effect(args@, 1) == Some(1int));
            assert(atom_effect(Atom::Call(name, args)) == Some(0int));
        },
        _ => {},
    }
}

/// A balanced statement has no effect on the depth of the stack.
pub proof fn lemma_balanced_effect(s: Statement)
    requires
        is_balanced(s),
    ensures
        stmt_effect(s) == Some(0int),
    decreases s, 0nat,
{
    match s {
        Statement::Let(_, _, init) => {
            lemma_value_effect(init);
        },
        Statement::Return(t, value, _, _) => {
            if t is Void {
                lemma_action_effect(value);
            } else {
                lemma_value_effect(value);
            }
        },
        Statement::Expression(_, e) => {
            lemma_action_effect(e);
        },
        Statement::If(_, test, body, alternative) => {
            lemma_value_effect(test);
            lemma_block_balanced_effect(body@, body@.len());
            match alternative {
                None => {},
                Some(alt) => {
                    lemma_block_balanced_effect(alt@, alt@.len());
                },
            }
        },
        Statement::While(test, body) => {
            lemma_value_effect(test);
            lemma_block_balanced_effect(body@, body@.len());
        },
        Statement::For(init, test, step, body) => {
            lemma_action_effect(init);
            lemma_value_effect(test);
            lemma_action_effect(step);
            lemma_block_balanced_effect(body@, body@.len());
        },
        Statement::Block(body) => {
            lemma_block_balanced_effect(body@, body@.len());
        },
        _ => {},
    }
}

/// A block of balanced statements has no effect on the depth of the
/// stack.
pub proof fn lemma_block_balanced_effect(block: Seq<Statement>, n: nat)
    requires
        n <= block.len(),
        all_balanced(block, n),
    ensures
        block_effect(block, n) == Some(0int),
    decreases block, n,
{
    if n > 0 {
        lemma_block_balanced_effect(block, (n - 1) as nat);
        lemma_balanced_effect(block[n - 1]);
    }
}

} // verus!
