//! The stack effect of every form, told from the syntax tree alone, and
//! the proof that the simulator finds the same effect in the lowered
//! instructions.

use vstd::prelude::*;
use crate::code::SpecAsm;
use crate::fresh::{
    at_most, count_label, lemma_block_fresh, lemma_uncounted_is_lacking, places_fresh_labels,
};
use crate::lowering::{
    arg_names, assignment_code, atom_code, binop_code, block_code, body_scope, break_code,
    callee_code, captures_code, chain, closure_code, compound_code, expr_code, exprs_code,
    followed_by, followed_by_op, for_code, function_code, if_code, is_clone, is_free, is_print,
    local_ref_code, local_value_code, name_code, operands_code, ordered_or_equal_code, ref_code,
    ref_index_code, short_circuit_code, short_circuit_test, stmt_code, store_code, struct_code,
    typed_op, while_code, Lowered, Scope,
};
use crate::nodes::{Atom, Expr, Statement};
use crate::stack::{
    lacks_label, lemma_net_1, lemma_net_2, lemma_net_3, lemma_net_4, lemma_net_body,
    lemma_net_concat, lemma_net_empty, lemma_net_push, net_effect, plus,
};
use crate::table::names;
use crate::tokens::{Numeric, Operator};

verus! {

/// An effect moved by `d`.
pub open spec fn shifted(a: Option<int>, d: int) -> Option<int> {
    plus(a, Some(d))
}

/// The effect of calling `name` once the arguments are on the stack:
/// `print` and `free` consume one value, `clone` replaces one; of any other
/// callee it cannot be told.
pub open spec fn call_effect(name: Seq<char>) -> Option<int> {
    if is_print(name) || is_free(name) {
        Some(-1)
    } else if is_clone(name) {
        Some(0)
    } else {
        None
    }
}

/// The stack effect of an expression in value position: how many values
/// its instructions leave, as far as the form tells. A literal, an
/// identifier or a closure leaves one; an assignment consumes the value of
/// its right side; an operator consumes its operands and leaves one
/// result.
pub open spec fn expr_effect(e: Expr) -> Option<int>
    decreases e, 1nat,
{
    match e {
        Expr::Empty => Some(0),
        Expr::ListConstructor(_, list) => shifted(
            exprs_effect(list@, list@.len()),
            1 - list@.len(),
        ),
        Expr::Field(_, _, _, base) => expr_effect(*base),
        Expr::Indexed(_, _, index, base) => shifted(
            plus(expr_effect(*index), expr_effect(*base)),
            -1,
        ),
        Expr::Call(_, _, _, _) => None,
        Expr::Unary(_, _, operand) => expr_effect(*operand),
        Expr::Binop(_, op, lhs, rhs) => {
            let l = expr_effect(*lhs);
            let r = expr_effect(*rhs);
            match op {
                Operator::Addition
                | Operator::Subtraction
                | Operator::Multiplication
                | Operator::Division
                | Operator::Modulo
                | Operator::GreaterThan
                | Operator::LessThan
                | Operator::Equality
                | Operator::NotEqual
                | Operator::And
                | Operator::Or => shifted(plus(l, r), -1),
                Operator::Not => plus(l, r),
                Operator::Assignment => shifted(r, -1),
                Operator::AdditionAssignment | Operator::SubtractionAssignment => shifted(
                    plus(r, l),
                    -2,
                ),
                Operator::GtrOrEqu | Operator::LssOrEqu => shifted(
                    plus(plus(l, r), plus(l, r)),
                    -3,
                ),
                _ => None,
            }
        },
        Expr::Literal(_, atom) => atom_effect(atom),
        Expr::Closure(_, _, _, _) => Some(1),
    }
}

/// The sum of the effects of the first `n` expressions of a list.
pub open spec fn exprs_effect(list: Seq<Expr>, n: nat) -> Option<int>
    decreases list, n,
{
    if n == 0 || n > list.len() {
        Some(0)
    } else {
        plus(exprs_effect(list, (n - 1) as nat), expr_effect(list[n - 1]))
    }
}

/// The stack effect of an atom in value position.
pub open spec fn atom_effect(atom: Atom) -> Option<int>
    decreases atom, 0nat,
{
    match atom {
        Atom::Call(name, args) => plus(exprs_effect(args@, args@.len()), call_effect(name@)),
        _ => Some(1),
    }
}

/// The stack effect of a statement: a binding or a conditional jump
/// consumes one value, a declaration none.
pub open spec fn stmt_effect(s: Statement) -> Option<int>
    decreases s, 0nat,
{
    match s {
        Statement::Pass => Some(0),
        Statement::Let(_, _, init) => shifted(expr_effect(init), -1),
        Statement::Function(_, _, _, _) => Some(0),
        Statement::Struct(_, _, _) => Some(0),
        Statement::Return(t, value, _, _) => shifted(
            expr_effect(value),
            if t is Void {
                0
            } else {
                -1
            },
        ),
        Statement::Expression(_, e) => expr_effect(e),
        Statement::If(_, test, body, alternative) => shifted(
            plus(
                plus(expr_effect(test), block_effect(body@, body@.len())),
                match alternative {
                    None => Some(0),
                    Some(alt) => block_effect(alt@, alt@.len()),
                },
            ),
            -1,
        ),
        Statement::While(test, body) => shifted(
            plus(expr_effect(test), block_effect(body@, body@.len())),
            -1,
        ),
        Statement::For(init, test, step, body) => shifted(
            plus(
                plus(plus(expr_effect(init), expr_effect(test)), block_effect(body@, body@.len())),
                expr_effect(step),
            ),
            -1,
        ),
        Statement::Break => Some(0),
        Statement::Continue => None,
        Statement::Block(body) => block_effect(body@, body@.len()),
    }
}

/// The sum of the effects of the first `n` statements of a block.
pub open spec fn block_effect(block: Seq<Statement>, n: nat) -> Option<int>
    decreases block, n,
{
    if n == 0 || n > block.len() {
        Some(0)
    } else {
        plus(block_effect(block, (n - 1) as nat), stmt_effect(block[n - 1]))
    }
}

/// `r`, if it succeeded and `d` is known, is a list of instructions in
/// which the simulator finds the effect `d`.
pub open spec fn nets(r: Lowered, d: Option<int>) -> bool {
    r is Ok && d is Some ==> net_effect(r.unwrap().code) == d
}

/// The effects of two lowerings in a row add up.
pub proof fn lemma_nets_chain(a: Lowered, b: Lowered, da: Option<int>, db: Option<int>)
    requires
        nets(a, da),
        nets(b, db),
    ensures
        nets(chain(a, b), plus(da, db)),
{
    if a is Ok && b is Ok && da is Some && db is Some {
        lemma_net_concat(a.unwrap().code, b.unwrap().code);
    }
}

/// Instructions after a lowering add their effect.
pub proof fn lemma_nets_followed(a: Lowered, code: Seq<SpecAsm>, da: Option<int>)
    requires
        nets(a, da),
        net_effect(code) is Some,
    ensures
        nets(followed_by(a, code), plus(da, net_effect(code))),
{
    if a is Ok && da is Some {
        lemma_net_concat(a.unwrap().code, code);
    }
}

/// A typed arithmetic or relational instruction consumes two values and
/// leaves one.
pub proof fn lemma_nets_followed_op(a: Lowered, op: Operator, class: Numeric, da: Option<int>)
    requires
        nets(a, da),
    ensures
        nets(followed_by_op(a, typed_op(op, class)), shifted(da, -1)),
{
    if let Ok(i) = typed_op(op, class) {
        if a is Ok && da is Some {
            lemma_net_push(a.unwrap().code, i);
        }
    }
}

/// A reference to a local leaves one value.
pub proof fn lemma_local_ref_nets(sc: Scope, name: Seq<char>)
    ensures
        nets(local_ref_code(sc, name), Some(1)),
{
    if let Ok(out) = local_ref_code(sc, name) {
        lemma_net_1(out.code[0]);
        assert(out.code =~= seq![out.code[0]]);
    }
}

/// The fetch of a local leaves one value.
pub proof fn lemma_local_value_nets(sc: Scope, name: Seq<char>)
    ensures
        nets(local_value_code(sc, name), Some(1)),
{
    if let Ok(out) = local_value_code(sc, name) {
        lemma_net_1(out.code[0]);
        assert(out.code =~= seq![out.code[0]]);
    }
}

/// An assignment target leaves one value: the reference.
pub proof fn lemma_ref_nets(sc: Scope, e: Expr)
    ensures
        nets(ref_code(sc, e), Some(1)),
    decreases e,
{
    match e {
        Expr::Field(_, _, index, base) => {
            lemma_ref_nets(sc, *base);
            let first = sc.emit(seq![SpecAsm::INTEGER(index as i64)]);
            lemma_net_1(SpecAsm::INTEGER(index as i64));
            lemma_nets_chain(first, ref_code(sc, *base), Some(1), Some(1));
            lemma_net_1(SpecAsm::PIN);
            lemma_nets_followed(chain(first, ref_code(sc, *base)), seq![SpecAsm::PIN], Some(2));
        },
        Expr::Indexed(_, _, index, base) => {
            lemma_ref_nets(sc, *base);
            let first = ref_index_code(sc, *index);
            assert(nets(first, Some(1))) by {
                match *index {
                    Expr::Literal(_, Atom::Id(name)) => {
                        lemma_local_value_nets(sc, name@);
                    },
                    Expr::Literal(_, Atom::Integer(n)) => {
                        lemma_net_1(SpecAsm::INTEGER(n));
                    },
                    _ => {},
                }
            }
            lemma_nets_chain(first, ref_code(sc, *base), Some(1), Some(1));
            lemma_net_1(SpecAsm::PIN);
            lemma_nets_followed(chain(first, ref_code(sc, *base)), seq![SpecAsm::PIN], Some(2));
        },
        Expr::Literal(_, atom) => {
            match atom {
                Atom::Id(name) => {
                    lemma_local_ref_nets(sc, name@);
                },
                _ => {},
            }
        },
        _ => {},
    }
}

/// The fetch of `n` captured names leaves `n` values.
pub proof fn lemma_captures_nets(sc: Scope, captured: Seq<String>, n: nat)
    requires
        n <= captured.len(),
    ensures
        nets(captures_code(sc, captured, n), Some(n as int)),
    decreases n,
{
    if n > 0 {
        lemma_captures_nets(sc, captured, (n - 1) as nat);
        let front = captures_code(sc, captured, (n - 1) as nat);
        let last = local_value_code(sc, captured[n - 1]@);
        lemma_local_value_nets(sc, captured[n - 1]@);
        lemma_nets_chain(front, last, Some(n - 1), Some(1));
    }
}

/// The fetch of an identifier leaves one value.
pub proof fn lemma_name_nets(sc: Scope, name: Seq<char>)
    ensures
        nets(name_code(sc, name), Some(1)),
{
    if let Ok(out) = name_code(sc, name) {
        lemma_net_1(out.code[0]);
        assert(out.code =~= seq![out.code[0]]);
    }
}

/// The call of a built-in has the effect that its name tells.
pub proof fn lemma_callee_nets(sc: Scope, name: Seq<char>)
    ensures
        nets(callee_code(sc, name), call_effect(name)),
{
    lemma_net_1(SpecAsm::PRINT);
    lemma_net_1(SpecAsm::FREE);
    lemma_net_1(SpecAsm::CLONE);
}

/// The simulator finds in a lowered expression the effect that the
/// expression has.
pub proof fn lemma_expr_nets(sc: Scope, e: Expr)
    ensures
        nets(expr_code(sc, e), expr_effect(e)),
    decreases e, 2nat,
{
    match e {
        Expr::Empty => {
            lemma_net_empty();
        },
        Expr::ListConstructor(_, list) => {
            assert(list@.len() == list.len());
            lemma_exprs_nets(sc, list@, list@.len());
            lemma_net_1(SpecAsm::LIST(list@.len() as usize));
            lemma_nets_followed(
                exprs_code(sc, list@, list@.len()),
                seq![SpecAsm::LIST(list@.len() as usize)],
                exprs_effect(list@, list@.len()),
            );
        },
        Expr::Field(_, _, index, base) => {
            lemma_expr_nets(sc, *base);
            let first = sc.emit(seq![SpecAsm::INTEGER(index as i64)]);
            lemma_net_1(SpecAsm::INTEGER(index as i64));
            lemma_nets_chain(first, expr_code(sc, *base), Some(1), expr_effect(*base));
            lemma_net_1(SpecAsm::LIN);
            lemma_nets_followed(
                chain(first, expr_code(sc, *base)),
                seq![SpecAsm::LIN],
                plus(Some(1), expr_effect(*base)),
            );
        },
        Expr::Indexed(_, _, index, base) => {
            let i = expr_code(sc, *index);
            let b = expr_code(sc.after(i), *base);
            lemma_expr_nets(sc, *index);
            lemma_expr_nets(sc.after(i), *base);
            lemma_nets_chain(i, b, expr_effect(*index), expr_effect(*base));
            lemma_net_1(SpecAsm::LIN);
            lemma_nets_followed(
                chain(i, b),
                seq![SpecAsm::LIN],
                plus(expr_effect(*index), expr_effect(*base)),
            );
        },
        Expr::Call(_, _, _, _) => {},
        Expr::Unary(_, _, operand) => {
            lemma_expr_nets(sc, *operand);
            lemma_net_1(SpecAsm::NEG);
            lemma_net_1(SpecAsm::NOT);
            lemma_nets_followed(expr_code(sc, *operand), seq![SpecAsm::NEG], expr_effect(*operand));
            lemma_nets_followed(expr_code(sc, *operand), seq![SpecAsm::NOT], expr_effect(*operand));
        },
        Expr::Binop(_, _, _, _) => {
            lemma_binop_nets(sc, e);
        },
        Expr::Literal(_, atom) => {
            lemma_atom_nets(sc, atom);
        },
        Expr::Closure(_, _, _, _) => {
            lemma_closure_nets(sc, e);
        },
    }
}

/// The simulator finds in a lowered list of expressions the sum of their
/// effects.
pub proof fn lemma_exprs_nets(sc: Scope, list: Seq<Expr>, n: nat)
    ensures
        nets(exprs_code(sc, list, n), exprs_effect(list, n)),
    decreases list, n,
{
    if n == 0 || n > list.len() {
        lemma_net_empty();
    } else {
        let front = exprs_code(sc, list, (n - 1) as nat);
        lemma_exprs_nets(sc, list, (n - 1) as nat);
        lemma_expr_nets(sc.after(front), list[n - 1]);
        lemma_nets_chain(
            front,
            expr_code(sc.after(front), list[n - 1]),
            exprs_effect(list, (n - 1) as nat),
            expr_effect(list[n - 1]),
        );
    }
}

/// The simulator finds in a lowered atom the effect that the atom has.
pub proof fn lemma_atom_nets(sc: Scope, atom: Atom)
    ensures
        nets(atom_code(sc, atom), atom_effect(atom)),
    decreases atom, 0nat,
{
    match atom {
        Atom::Bool(b) => {
            lemma_net_1(SpecAsm::BOOL(b));
        },
        Atom::Id(name) => {
            lemma_name_nets(sc, name@);
        },
        Atom::Float(bits) => {
            lemma_net_1(SpecAsm::FLOAT(bits));
        },
        Atom::String(s) => {
            lemma_net_1(SpecAsm::STRING(s@));
        },
        Atom::Integer(n) => {
            lemma_net_1(SpecAsm::INTEGER(n));
        },
        Atom::Call(name, args) => {
            let a = exprs_code(sc, args@, args@.len());
            lemma_exprs_nets(sc, args@, args@.len());
            lemma_callee_nets(sc.after(a), name@);
            lemma_nets_chain(
                a,
                callee_code(sc.after(a), name@),
                exprs_effect(args@, args@.len()),
                call_effect(name@),
            );
        },
    }
}

/// The simulator finds in a lowered infix operation the effect that the
/// operation has.
pub proof fn lemma_binop_nets(sc: Scope, e: Expr)
    requires
        e is Binop,
    ensures
        nets(binop_code(sc, e), expr_effect(e)),
    decreases e, 1nat,
{
    match e {
        Expr::Binop(_, op, _, _) => match op {
            Operator::Addition
            | Operator::Subtraction
            | Operator::Multiplication
            | Operator::Division
            | Operator::Modulo
            | Operator::GreaterThan
            | Operator::LessThan
            | Operator::Equality
            | Operator::NotEqual
            | Operator::Not => {
                lemma_operands_nets(sc, e);
            },
            Operator::Assignment => {
                lemma_assignment_nets(sc, e);
            },
            Operator::AdditionAssignment | Operator::SubtractionAssignment => {
                lemma_compound_nets(sc, e);
            },
            Operator::GtrOrEqu | Operator::LssOrEqu => {
                lemma_ordered_or_equal_nets(sc, e);
            },
            Operator::And | Operator::Or => {
                lemma_short_circuit_nets(sc, e);
            },
            _ => {},
        },
        _ => {},
    }
}

/// An operator on two values consumes both and leaves its result; the
/// infix `not` only replaces the upper one.
pub proof fn lemma_operands_nets(sc: Scope, e: Expr)
    requires
        e matches Expr::Binop(_, op, _, _) && !(op is And || op is Or || op is Assignment || op
            is AdditionAssignment || op is SubtractionAssignment || op is GtrOrEqu || op
            is LssOrEqu),
    ensures
        nets(operands_code(sc, e), expr_effect(e)),
    decreases e, 0nat,
{
    match e {
        Expr::Binop(_, op, lhs, rhs) => {
            let l = expr_code(sc, *lhs);
            let r = expr_code(sc.after(l), *rhs);
            let d = plus(expr_effect(*lhs), expr_effect(*rhs));
            lemma_expr_nets(sc, *lhs);
            lemma_expr_nets(sc.after(l), *rhs);
            lemma_nets_chain(l, r, expr_effect(*lhs), expr_effect(*rhs));
            lemma_net_1(SpecAsm::EQUALS);
            lemma_net_2(SpecAsm::EQUALS, SpecAsm::NOT);
            lemma_net_1(SpecAsm::NOT);
            lemma_nets_followed(chain(l, r), seq![SpecAsm::EQUALS], d);
            lemma_nets_followed(chain(l, r), seq![SpecAsm::EQUALS, SpecAsm::NOT], d);
            lemma_nets_followed(chain(l, r), seq![SpecAsm::NOT], d);
            lemma_nets_followed_op(chain(l, r), op, lhs.numeric(), d);
        },
        _ => {},
    }
}

/// An assignment consumes the value of its right side.
pub proof fn lemma_assignment_nets(sc: Scope, e: Expr)
    requires
        e matches Expr::Binop(_, Operator::Assignment, _, _),
    ensures
        nets(assignment_code(sc, e), expr_effect(e)),
    decreases e, 0nat,
{
    match e {
        Expr::Binop(_, _, lhs, rhs) => {
            let r = expr_code(sc, *rhs);
            let t = ref_code(sc.after(r), *lhs);
            lemma_expr_nets(sc, *rhs);
            lemma_ref_nets(sc.after(r), *lhs);
            lemma_nets_chain(r, t, expr_effect(*rhs), Some(1));
            lemma_net_1(SpecAsm::ASSIGN);
            lemma_nets_followed(
                chain(r, t),
                seq![SpecAsm::ASSIGN],
                plus(expr_effect(*rhs), Some(1)),
            );
        },
        _ => {},
    }
}

/// A compound assignment consumes both operands and the result.
pub proof fn lemma_compound_nets(sc: Scope, e: Expr)
    requires
        e matches Expr::Binop(_, op, _, _) && (op is AdditionAssignment || op
            is SubtractionAssignment),
    ensures
        nets(compound_code(sc, e), expr_effect(e)),
    decreases e, 0nat,
{
    match e {
        Expr::Binop(_, op, lhs, rhs) => {
            let r = expr_code(sc, *rhs);
            let l = expr_code(sc.after(r), *lhs);
            let d = plus(expr_effect(*rhs), expr_effect(*lhs));
            lemma_expr_nets(sc, *rhs);
            lemma_expr_nets(sc.after(r), *lhs);
            lemma_nets_chain(r, l, expr_effect(*rhs), expr_effect(*lhs));
            let value = followed_by_op(chain(r, l), typed_op(op, lhs.numeric()));
            lemma_nets_followed_op(chain(r, l), op, lhs.numeric(), d);
            let t = ref_code(sc.after(value), *lhs);
            lemma_ref_nets(sc.after(value), *lhs);
            lemma_nets_chain(value, t, shifted(d, -1), Some(1));
            lemma_net_1(SpecAsm::ASSIGN);
            lemma_nets_followed(
                chain(value, t),
                seq![SpecAsm::ASSIGN],
                plus(shifted(d, -1), Some(1)),
            );
        },
        _ => {},
    }
}

/// `>=` and `<=` lower both operands twice; along the list every
/// instruction counts once.
pub proof fn lemma_ordered_or_equal_nets(sc: Scope, e: Expr)
    requires
        e matches Expr::Binop(_, op, _, _) && (op is GtrOrEqu || op is LssOrEqu),
    ensures
        nets(ordered_or_equal_code(sc, e), expr_effect(e)),
    decreases e, 0nat,
{
    match e {
        Expr::Binop(_, op, lhs, rhs) => {
            if sc.has_labels(1) {
                let label = sc.next;
                let both = plus(expr_effect(*lhs), expr_effect(*rhs));
                let l = expr_code(sc.skip_labels(1), *lhs);
                let r = expr_code(sc.after(l), *rhs);
                let strict = followed_by_op(chain(l, r), typed_op(op, lhs.numeric()));
                let test = seq![
                    SpecAsm::DUP,
                    SpecAsm::NOT,
                    SpecAsm::JUMPIFFALSE(label),
                    SpecAsm::POP,
                ];
                let l2 = expr_code(sc.after(strict), *lhs);
                let r2 = expr_code(sc.after(l2), *rhs);
                let tail = seq![SpecAsm::EQUALS, SpecAsm::LABEL(label)];
                assert(nets(strict, shifted(both, -1))) by {
                    lemma_expr_nets(sc.skip_labels(1), *lhs);
                    lemma_expr_nets(sc.after(l), *rhs);
                    lemma_nets_chain(l, r, expr_effect(*lhs), expr_effect(*rhs));
                    lemma_nets_followed_op(chain(l, r), op, lhs.numeric(), both);
                }
                assert(nets(followed_by(strict, test), shifted(both, -2))) by {
                    lemma_net_4(
                        SpecAsm::DUP,
                        SpecAsm::NOT,
                        SpecAsm::JUMPIFFALSE(label),
                        SpecAsm::POP,
                    );
                    lemma_nets_followed(strict, test, shifted(both, -1));
                }
                assert(nets(chain(l2, r2), both)) by {
                    lemma_expr_nets(sc.after(strict), *lhs);
                    lemma_expr_nets(sc.after(l2), *rhs);
                    lemma_nets_chain(l2, r2, expr_effect(*lhs), expr_effect(*rhs));
                }
                let all = chain(followed_by(strict, test), chain(l2, r2));
                assert(nets(all, plus(shifted(both, -2), both))) by {
                    lemma_nets_chain(
                        followed_by(strict, test),
                        chain(l2, r2),
                        shifted(both, -2),
                        both,
                    );
                }
                assert(nets(followed_by(all, tail), shifted(plus(both, both), -3))) by {
                    lemma_net_2(SpecAsm::EQUALS, SpecAsm::LABEL(label));
                    lemma_nets_followed(all, tail, plus(shifted(both, -2), both));
                }
                assert(ordered_or_equal_code(sc, e) == followed_by(all, tail));
            }
        },
        _ => {},
    }
}

/// `&&` and `||` leave one value for two operands.
pub proof fn lemma_short_circuit_nets(sc: Scope, e: Expr)
    requires
        e matches Expr::Binop(_, op, _, _) && (op is And || op is Or),
    ensures
        nets(short_circuit_code(sc, e), expr_effect(e)),
    decreases e, 0nat,
{
    match e {
        Expr::Binop(_, op, lhs, rhs) => {
            if sc.has_labels(1) {
                let label = sc.next;
                let le = expr_effect(*lhs);
                let re = expr_effect(*rhs);
                let l = expr_code(sc.skip_labels(1), *lhs);
                let r = expr_code(sc.after(l), *rhs);
                lemma_expr_nets(sc.skip_labels(1), *lhs);
                lemma_expr_nets(sc.after(l), *rhs);
                let test = short_circuit_test(op, label);
                lemma_net_3(SpecAsm::DUP, SpecAsm::JUMPIFFALSE(label), SpecAsm::POP);
                lemma_net_4(SpecAsm::DUP, SpecAsm::NOT, SpecAsm::JUMPIFFALSE(label), SpecAsm::POP);
                assert(net_effect(test) == Some(-1int));
                lemma_nets_followed(l, test, le);
                lemma_nets_chain(followed_by(l, test), r, shifted(le, -1), re);
                lemma_net_1(SpecAsm::LABEL(label));
                lemma_nets_followed(
                    chain(followed_by(l, test), r),
                    seq![SpecAsm::LABEL(label)],
                    plus(shifted(le, -1), re),
                );
            }
        },
        _ => {},
    }
}

/// What stands between an instruction that opens a body and the label of
/// that body, when the body places fresh labels from after that label on,
/// does not hold the label.
pub proof fn lemma_body_lacks_label(label: usize, arity: SpecAsm, body: Lowered)
    requires
        label < usize::MAX,
        arity is OFFSET,
        body is Ok,
        places_fresh_labels((label + 1) as usize, body),
    ensures
        lacks_label(seq![arity] + body.unwrap().code, label),
{
    let code = body.unwrap().code;
    let inside = seq![arity] + code;
    assert(count_label(code, label) <= at_most(label + 1, body.unwrap().next as int, label));
    lemma_uncounted_is_lacking(code, label);
    assert forall|i: int| 0 <= i < inside.len() implies inside[i] != SpecAsm::LABEL(label) by {
        if i >= 1 {
            assert(inside[i] == code[i - 1]);
        }
    }
}

/// A closure leaves one value, whatever its body holds.
pub proof fn lemma_closure_nets(sc: Scope, e: Expr)
    requires
        e is Closure,
    ensures
        nets(closure_code(sc, e), Some(1)),
    decreases e, 0nat,
{
    match e {
        Expr::Closure(_, params, body, captured) => {
            if let Ok(out) = closure_code(sc, e) {
                let n = captured@.len();
                let label = sc.next;
                let seeded = arg_names(params@) + names(captured@);
                let inner = body_scope(sc, seeded);
                let fetch = captures_code(sc, captured@, n);
                let b = block_code(inner, body@, body@.len());
                let arity = SpecAsm::OFFSET(
                    seeded.len() as u32,
                    (b.unwrap().locals.len() - seeded.len()) as u32,
                );
                lemma_captures_nets(sc, captured@, n);
                lemma_net_1(SpecAsm::LIST(n as usize));
                lemma_nets_followed(fetch, seq![SpecAsm::LIST(n as usize)], Some(n as int));
                let head = followed_by(fetch, seq![SpecAsm::LIST(n as usize)]).unwrap().code;
                assert(net_effect(head) == Some(1int));
                lemma_block_fresh(inner, body@, body@.len());
                lemma_body_lacks_label(label, arity, b);
                let inside = seq![arity] + b.unwrap().code;
                lemma_net_body(SpecAsm::CLOSURE(label), label, inside);
                let made = seq![SpecAsm::CLOSURE(label)] + inside + seq![SpecAsm::LABEL(label)];
                lemma_net_concat(head, made);
                assert(out.code =~= head + made);
            }
        },
        _ => {},
    }
}

/// Storing into a local consumes one value.
pub proof fn lemma_store_nets(sc: Scope, name: Seq<char>)
    ensures
        nets(store_code(sc, name), Some(-1)),
{
    if let Ok(out) = store_code(sc, name) {
        lemma_net_1(out.code[0]);
        assert(out.code =~= seq![out.code[0]]);
    }
}

/// A struct declaration leaves nothing.
pub proof fn lemma_struct_nets(sc: Scope, name: Seq<char>, fields: nat)
    ensures
        nets(struct_code(sc, name, fields), Some(0)),
{
    if let Ok(out) = struct_code(sc, name, fields) {
        let label = sc.next;
        let inside = seq![
            SpecAsm::OFFSET((fields - 1) as u32, 0),
            SpecAsm::STRING(name),
            SpecAsm::LIST(fields as usize),
            SpecAsm::RET(true),
        ];
        lemma_net_body(SpecAsm::FUNCTION(label), label, inside);
        let made = seq![SpecAsm::FUNCTION(label)] + inside + seq![SpecAsm::LABEL(label)];
        lemma_net_push(made, SpecAsm::STOREGLOBAL(sc.globals.len() as u32));
        assert(out.code =~= made.push(SpecAsm::STOREGLOBAL(sc.globals.len() as u32)));
    }
}

/// `break` leaves nothing.
pub proof fn lemma_break_nets(sc: Scope)
    ensures
        nets(break_code(sc), Some(0)),
{
    if sc.breaks.len() > 0 {
        lemma_net_1(SpecAsm::JMP(sc.breaks.last()));
    }
}

/// The simulator finds in a lowered statement the effect that the
/// statement has.
pub proof fn lemma_stmt_nets(sc: Scope, s: Statement)
    ensures
        nets(stmt_code(sc, s), stmt_effect(s)),
    decreases s, 1nat,
{
    match s {
        Statement::Pass => {
            lemma_net_empty();
        },
        Statement::Let(_, name, init) => {
            let v = expr_code(sc, init);
            lemma_expr_nets(sc, init);
            lemma_store_nets(sc.after(v), name@);
            lemma_nets_chain(v, store_code(sc.after(v), name@), expr_effect(init), Some(-1));
        },
        Statement::Function(_, _, _, _) => {
            lemma_function_nets(sc, s);
        },
        Statement::Struct(_, name, fields) => {
            lemma_struct_nets(sc, name@, fields@.len());
        },
        Statement::Return(t, value, _, _) => {
            lemma_expr_nets(sc, value);
            lemma_net_1(SpecAsm::RET(!(t is Void)));
            lemma_nets_followed(
                expr_code(sc, value),
                seq![SpecAsm::RET(!(t is Void))],
                expr_effect(value),
            );
        },
        Statement::Expression(_, e) => {
            lemma_expr_nets(sc, e);
        },
        Statement::If(_, _, _, _) => {
            lemma_if_nets(sc, s);
        },
        Statement::While(_, _) => {
            lemma_while_nets(sc, s);
        },
        Statement::For(_, _, _, _) => {
            lemma_for_nets(sc, s);
        },
        Statement::Break => {
            lemma_break_nets(sc);
        },
        Statement::Continue => {},
        Statement::Block(body) => {
            lemma_block_nets(sc, body@, body@.len());
        },
    }
}

/// A function declaration leaves nothing, whatever its body holds.
pub proof fn lemma_function_nets(sc: Scope, s: Statement)
    requires
        s is Function,
    ensures
        nets(function_code(sc, s), Some(0)),
    decreases s, 0nat,
{
    match s {
        Statement::Function(_, name, params, body) => {
            if let Ok(out) = function_code(sc, s) {
                let label = sc.next;
                let declared = Scope { globals: sc.globals.push(name@), ..sc };
                let inner = body_scope(declared, arg_names(params@));
                let b = block_code(inner, body@, body@.len());
                let arity = SpecAsm::OFFSET(
                    params@.len() as u32,
                    (b.unwrap().locals.len() - params@.len()) as u32,
                );
                lemma_block_fresh(inner, body@, body@.len());
                lemma_body_lacks_label(label, arity, b);
                let inside = seq![arity] + b.unwrap().code;
                lemma_net_body(SpecAsm::FUNCTION(label), label, inside);
                let made = seq![SpecAsm::FUNCTION(label)] + inside + seq![SpecAsm::LABEL(label)];
                lemma_net_push(made, SpecAsm::STOREGLOBAL(sc.globals.len() as u32));
                assert(out.code =~= made.push(SpecAsm::STOREGLOBAL(sc.globals.len() as u32)));
            }
        },
        _ => {},
    }
}

/// A conditional consumes the value of its test.
pub proof fn lemma_if_nets(sc: Scope, s: Statement)
    requires
        s is If,
    ensures
        nets(if_code(sc, s), stmt_effect(s)),
    decreases s, 0nat,
{
    match s {
        Statement::If(_, test, body, alternative) => {
            if sc.has_labels(2) {
                let otherwise = sc.next;
                let end = (sc.next + 1) as usize;
                let te = expr_effect(test);
                let be = block_effect(body@, body@.len());
                let t = expr_code(sc.skip_labels(2), test);
                let b = block_code(sc.after(t), body@, body@.len());
                let jumped = followed_by(t, seq![SpecAsm::JUMPIFFALSE(otherwise)]);
                let taken = chain(jumped, b);
                let de = shifted(plus(te, be), -1);
                assert(nets(jumped, shifted(te, -1))) by {
                    lemma_expr_nets(sc.skip_labels(2), test);
                    lemma_net_1(SpecAsm::JUMPIFFALSE(otherwise));
                    lemma_nets_followed(t, seq![SpecAsm::JUMPIFFALSE(otherwise)], te);
                }
                assert(nets(taken, de)) by {
                    lemma_block_nets(sc.after(t), body@, body@.len());
                    lemma_nets_chain(jumped, b, shifted(te, -1), be);
                }
                match alternative {
                    None => {
                        assert(nets(followed_by(taken, seq![SpecAsm::LABEL(otherwise)]), de)) by {
                            lemma_net_1(SpecAsm::LABEL(otherwise));
                            lemma_nets_followed(taken, seq![SpecAsm::LABEL(otherwise)], de);
                        }
                    },
                    Some(alt) => {
                        let a = block_code(sc.after(taken), alt@, alt@.len());
                        let ae = block_effect(alt@, alt@.len());
                        let middle = followed_by(
                            taken,
                            seq![SpecAsm::JMP(end), SpecAsm::LABEL(otherwise)],
                        );
                        assert(nets(middle, de)) by {
                            lemma_net_2(SpecAsm::JMP(end), SpecAsm::LABEL(otherwise));
                            lemma_nets_followed(
                                taken,
                                seq![SpecAsm::JMP(end), SpecAsm::LABEL(otherwise)],
                                de,
                            );
                        }
                        assert(nets(chain(middle, a), plus(de, ae))) by {
                            lemma_block_nets(sc.after(taken), alt@, alt@.len());
                            lemma_nets_chain(middle, a, de, ae);
                        }
                        assert(nets(
                            followed_by(chain(middle, a), seq![SpecAsm::LABEL(end)]),
                            plus(de, ae),
                        )) by {
                            lemma_net_1(SpecAsm::LABEL(end));
                            lemma_nets_followed(
                                chain(middle, a),
                                seq![SpecAsm::LABEL(end)],
                                plus(de, ae),
                            );
                        }
                    },
                }
            }
        },
        _ => {},
    }
}

/// A while loop consumes the value of its test.
pub proof fn lemma_while_nets(sc: Scope, s: Statement)
    requires
        s is While,
    ensures
        nets(while_code(sc, s), stmt_effect(s)),
    decreases s, 0nat,
{
    match s {
        Statement::While(test, body) => {
            if sc.has_labels(2) {
                let top = sc.next;
                let end = (sc.next + 1) as usize;
                let inner = sc.skip_labels(2).in_loop(end);
                let te = expr_effect(test);
                let be = block_effect(body@, body@.len());
                let t = expr_code(inner, test);
                let b = block_code(inner.after(t), body@, body@.len());
                let head = sc.emit(seq![SpecAsm::LABEL(top)]);
                let tested = followed_by(chain(head, t), seq![SpecAsm::JUMPIFFALSE(end)]);
                assert(nets(tested, shifted(te, -1))) by {
                    lemma_expr_nets(inner, test);
                    lemma_net_1(SpecAsm::LABEL(top));
                    lemma_nets_chain(head, t, Some(0), te);
                    lemma_net_1(SpecAsm::JUMPIFFALSE(end));
                    lemma_nets_followed(
                        chain(head, t),
                        seq![SpecAsm::JUMPIFFALSE(end)],
                        plus(Some(0), te),
                    );
                }
                assert(nets(chain(tested, b), shifted(plus(te, be), -1))) by {
                    lemma_block_nets(inner.after(t), body@, body@.len());
                    lemma_nets_chain(tested, b, shifted(te, -1), be);
                }
                assert(nets(
                    followed_by(chain(tested, b), seq![SpecAsm::BJMP(top), SpecAsm::LABEL(end)]),
                    shifted(plus(te, be), -1),
                )) by {
                    lemma_net_2(SpecAsm::BJMP(top), SpecAsm::LABEL(end));
                    lemma_nets_followed(
                        chain(tested, b),
                        seq![SpecAsm::BJMP(top), SpecAsm::LABEL(end)],
                        shifted(plus(te, be), -1),
                    );
                }
            }
        },
        _ => {},
    }
}

/// The parts of a for loop in a row consume one value more than they
/// leave: the one that the jump out of the loop tests.
proof fn lemma_for_parts_net(
    i: Lowered,
    t: Lowered,
    b: Lowered,
    n: Lowered,
    ie: Option<int>,
    te: Option<int>,
    be: Option<int>,
    ne: Option<int>,
    top: usize,
    end: usize,
)
    requires
        nets(i, ie),
        nets(t, te),
        nets(b, be),
        nets(n, ne),
    ensures
        nets(
            followed_by(
                chain(
                    chain(
                        followed_by(
                            chain(followed_by(i, seq![SpecAsm::LABEL(top)]), t),
                            seq![SpecAsm::JUMPIFFALSE(end)],
                        ),
                        b,
                    ),
                    n,
                ),
                seq![SpecAsm::BJMP(top), SpecAsm::LABEL(end)],
            ),
            shifted(plus(plus(plus(ie, te), be), ne), -1),
        ),
{
    let started = followed_by(i, seq![SpecAsm::LABEL(top)]);
    let tested = followed_by(chain(started, t), seq![SpecAsm::JUMPIFFALSE(end)]);
    let looped = chain(chain(tested, b), n);
    let d1 = shifted(plus(ie, te), -1);
    assert(nets(started, ie)) by {
        lemma_net_1(SpecAsm::LABEL(top));
        lemma_nets_followed(i, seq![SpecAsm::LABEL(top)], ie);
    }
    assert(nets(tested, d1)) by {
        lemma_nets_chain(started, t, ie, te);
        lemma_net_1(SpecAsm::JUMPIFFALSE(end));
        lemma_nets_followed(chain(started, t), seq![SpecAsm::JUMPIFFALSE(end)], plus(ie, te));
    }
    assert(nets(looped, plus(plus(d1, be), ne))) by {
        lemma_nets_chain(tested, b, d1, be);
        lemma_nets_chain(chain(tested, b), n, plus(d1, be), ne);
    }
    lemma_net_2(SpecAsm::BJMP(top), SpecAsm::LABEL(end));
    lemma_nets_followed(
        looped,
        seq![SpecAsm::BJMP(top), SpecAsm::LABEL(end)],
        plus(plus(d1, be), ne),
    );
}

/// A for loop consumes the value of its test.
pub proof fn lemma_for_nets(sc: Scope, s: Statement)
    requires
        s is For,
    ensures
        nets(for_code(sc, s), stmt_effect(s)),
    decreases s, 0nat,
{
    match s {
        Statement::For(init, test, step, body) => {
            if sc.has_labels(2) {
                let top = sc.next;
                let end = (sc.next + 1) as usize;
                let inner = sc.skip_labels(2).in_loop(end);
                let i = expr_code(inner, init);
                let t = expr_code(inner.after(i), test);
                let b = block_code(inner.after(t), body@, body@.len());
                let n = expr_code(inner.after(b), step);
                lemma_expr_nets(inner, init);
                lemma_expr_nets(inner.after(i), test);
                lemma_block_nets(inner.after(t), body@, body@.len());
                lemma_expr_nets(inner.after(b), step);
                lemma_for_parts_net(
                    i,
                    t,
                    b,
                    n,
                    expr_effect(init),
                    expr_effect(test),
                    block_effect(body@, body@.len()),
                    expr_effect(step),
                    top,
                    end,
                );
            }
        },
        _ => {},
    }
}

/// The simulator finds in a lowered block the sum of the effects of its
/// statements.
pub proof fn lemma_block_nets(sc: Scope, block: Seq<Statement>, n: nat)
    ensures
        nets(block_code(sc, block, n), block_effect(block, n)),
    decreases block, n,
{
    if n == 0 || n > block.len() {
        lemma_net_empty();
    } else {
        let front = block_code(sc, block, (n - 1) as nat);
        lemma_block_nets(sc, block, (n - 1) as nat);
        lemma_stmt_nets(sc.after(front), block[n - 1]);
        lemma_nets_chain(
            front,
            stmt_code(sc.after(front), block[n - 1]),
            block_effect(block, (n - 1) as nat),
            stmt_effect(block[n - 1]),
        );
    }
}

} // verus!
