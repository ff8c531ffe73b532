//! Where the paths of a branch meet: a jump arrives at its label with the
//! stack as deep as the instructions before the label leave it.
//!
//! The simulator of [`crate::stack`] follows the list, not the jumps. For
//! every form that branches, the laws here compare the two ways to its
//! label: the list up to and with the jump, and the list up to the label.

use vstd::prelude::*;
use crate::code::SpecAsm;
use crate::effect::{
    lemma_block_nets, lemma_expr_nets, lemma_nets_chain, lemma_nets_followed_op,
};
use crate::lowering::{
    binop_code, block_code, chain, expr_code, followed_by, followed_by_op, for_code, if_code,
    ordered_or_equal_code, short_circuit_code, short_circuit_test, stmt_code, typed_op,
    while_code, Scope,
};
use crate::nodes::{Expr, Statement};
use crate::shape::{
    all_balanced, is_action, is_value, lemma_action_effect, lemma_block_balanced_effect,
    lemma_value_effect,
};
use crate::stack::{lemma_net_1, lemma_net_2, lemma_net_3, lemma_net_concat, net_effect};
use crate::tokens::{Operator, TType};

verus! {

/// The test of `&&` or `||` up to and with its jump.
pub open spec fn short_circuit_jump(op: Operator, label: usize) -> Seq<SpecAsm> {
    if op is Or {
        seq![SpecAsm::DUP, SpecAsm::NOT, SpecAsm::JUMPIFFALSE(label)]
    } else {
        seq![SpecAsm::DUP, SpecAsm::JUMPIFFALSE(label)]
    }
}

/// Both paths through `a && b` and `a || b` reach the label with one
/// value on the stack: the jump with the value of `a`, the other path with
/// the value of `b`.
pub proof fn short_circuit_paths_meet(sc: Scope, t: TType, op: Operator, a: Expr, b: Expr)
    requires
        op is And || op is Or,
        expr_code(sc, Expr::Binop(t, op, Box::new(a), Box::new(b))) is Ok,
        is_value(a),
        is_value(b),
    ensures
        ({
            let left = expr_code(sc.skip_labels(1), a);
            let right = expr_code(sc.after(left), b);
            let jump = short_circuit_jump(op, sc.next);
            let through = left.unwrap().code + jump + seq![SpecAsm::POP] + right.unwrap().code;
            &&& left is Ok
            &&& right is Ok
            &&& expr_code(sc, Expr::Binop(t, op, Box::new(a), Box::new(b))).unwrap().code
                == through + seq![SpecAsm::LABEL(sc.next)]
            &&& net_effect(left.unwrap().code) == Some(1int)
            &&& net_effect(left.unwrap().code + jump) == Some(1int)
            &&& net_effect(through) == Some(1int)
        }),
{
    let e = Expr::Binop(t, op, Box::new(a), Box::new(b));
    let left = expr_code(sc.skip_labels(1), a);
    let right = expr_code(sc.after(left), b);
    let jump = short_circuit_jump(op, sc.next);
    lemma_short_circuit_shape(sc, e);
    assert(net_effect(left.unwrap().code) == Some(1int)) by {
        lemma_value_effect(a);
        lemma_expr_nets(sc.skip_labels(1), a);
    }
    assert(net_effect(right.unwrap().code) == Some(1int)) by {
        lemma_value_effect(b);
        lemma_expr_nets(sc.after(left), b);
    }
    assert(net_effect(jump) == Some(0int)) by {
        lemma_net_2(SpecAsm::DUP, SpecAsm::JUMPIFFALSE(sc.next));
        lemma_net_3(SpecAsm::DUP, SpecAsm::NOT, SpecAsm::JUMPIFFALSE(sc.next));
    }
    lemma_guarded_paths(left.unwrap().code, jump, right.unwrap().code);
}

/// The list of `&&` or `||`: the left operand, the test up to its jump,
/// `POP`, the right operand, and the label.
proof fn lemma_short_circuit_shape(sc: Scope, e: Expr)
    requires
        e matches Expr::Binop(_, op, _, _) && (op is And || op is Or),
        expr_code(sc, e) is Ok,
    ensures
        e matches Expr::Binop(_, op, a, b) && {
            let left = expr_code(sc.skip_labels(1), *a);
            let right = expr_code(sc.after(left), *b);
            &&& left is Ok
            &&& right is Ok
            &&& expr_code(sc, e).unwrap().code == left.unwrap().code + short_circuit_jump(
                op,
                sc.next,
            ) + seq![SpecAsm::POP] + right.unwrap().code + seq![SpecAsm::LABEL(sc.next)]
        },
{
    match e {
        Expr::Binop(_, op, a, b) => {
            let left = expr_code(sc.skip_labels(1), *a);
            let right = expr_code(sc.after(left), *b);
            let jump = short_circuit_jump(op, sc.next);
            assert(expr_code(sc, e) == binop_code(sc, e));
            assert(binop_code(sc, e) == short_circuit_code(sc, e));
            assert(short_circuit_test(op, sc.next) =~= jump + seq![SpecAsm::POP]);
            assert(expr_code(sc, e).unwrap().code =~= left.unwrap().code + jump + seq![
                SpecAsm::POP,
            ] + right.unwrap().code + seq![SpecAsm::LABEL(sc.next)]);
        },
        _ => {},
    }
}

/// A value, a test that keeps the depth up to its jump, the drop of the
/// value, and another value: the list up to the jump and the list up to
/// the end both leave one value.
proof fn lemma_guarded_paths(first: Seq<SpecAsm>, jump: Seq<SpecAsm>, second: Seq<SpecAsm>)
    requires
        net_effect(first) == Some(1int),
        net_effect(jump) == Some(0int),
        net_effect(second) is Some,
    ensures
        net_effect(first + jump) == Some(1int),
        net_effect(first + jump + seq![SpecAsm::POP] + second) == Some(
            net_effect(second).unwrap(),
        ),
{
    lemma_net_1(SpecAsm::POP);
    lemma_net_concat(first, jump);
    lemma_net_concat(first + jump, seq![SpecAsm::POP]);
    lemma_net_concat(first + jump + seq![SpecAsm::POP], second);
}

/// Every statement of a balanced block starts with the stack as deep as
/// the block found it; so does a `break` among them, whose jump leaves the
/// loop at the depth at which the loop's body began.
pub proof fn statements_start_at_entry_depth(sc: Scope, block: Seq<Statement>, k: nat)
    requires
        k <= block.len(),
        block_code(sc, block, block.len()) is Ok,
        all_balanced(block, block.len()),
    ensures
        block_code(sc, block, k) is Ok,
        net_effect(block_code(sc, block, k).unwrap().code) == Some(0int),
    decreases block.len() - k,
{
    if k < block.len() {
        statements_start_at_entry_depth(sc, block, k + 1);
    }
    lemma_balanced_prefix(block, k, block.len());
    lemma_block_balanced_effect(block, k);
    lemma_block_nets(sc, block, k);
}

/// The front of a balanced block is balanced.
pub proof fn lemma_balanced_prefix(block: Seq<Statement>, k: nat, n: nat)
    requires
        k <= n <= block.len(),
        all_balanced(block, n),
    ensures
        all_balanced(block, k),
    decreases n,
{
    if k < n {
        lemma_balanced_prefix(block, k, (n - 1) as nat);
    }
}

/// Both paths through `a >= b` and `a <= b` reach the label with one value
/// on the stack: the jump with the result of the strict comparison, the
/// other path with the result of `EQUALS`.
pub proof fn ordered_or_equal_paths_meet(sc: Scope, t: TType, op: Operator, a: Expr, b: Expr)
    requires
        op is GtrOrEqu || op is LssOrEqu,
        expr_code(sc, Expr::Binop(t, op, Box::new(a), Box::new(b))) is Ok,
        is_value(a),
        is_value(b),
    ensures
        ({
            let left = expr_code(sc.skip_labels(1), a);
            let right = expr_code(sc.after(left), b);
            let strict = followed_by_op(chain(left, right), typed_op(op, a.numeric()));
            let jump = seq![SpecAsm::DUP, SpecAsm::NOT, SpecAsm::JUMPIFFALSE(sc.next)];
            let again = chain(
                expr_code(sc.after(strict), a),
                expr_code(sc.after(expr_code(sc.after(strict), a)), b),
            );
            let through = strict.unwrap().code + jump + seq![SpecAsm::POP] + again.unwrap().code
                + seq![SpecAsm::EQUALS];
            &&& strict is Ok
            &&& again is Ok
            &&& expr_code(sc, Expr::Binop(t, op, Box::new(a), Box::new(b))).unwrap().code
                == through + seq![SpecAsm::LABEL(sc.next)]
            &&& net_effect(strict.unwrap().code + jump) == Some(1int)
            &&& net_effect(through) == Some(1int)
        }),
{
    let e = Expr::Binop(t, op, Box::new(a), Box::new(b));
    let label = sc.next;
    let left = expr_code(sc.skip_labels(1), a);
    let right = expr_code(sc.after(left), b);
    let strict = followed_by_op(chain(left, right), typed_op(op, a.numeric()));
    let jump = seq![SpecAsm::DUP, SpecAsm::NOT, SpecAsm::JUMPIFFALSE(label)];
    let left2 = expr_code(sc.after(strict), a);
    let right2 = expr_code(sc.after(left2), b);
    let again = chain(left2, right2);
    lemma_ordered_or_equal_shape(sc, e);
    let sc_code = strict.unwrap().code;
    let ac = again.unwrap().code;
    assert(net_effect(sc_code) == Some(1int)) by {
        lemma_value_effect(a);
        lemma_value_effect(b);
        lemma_expr_nets(sc.skip_labels(1), a);
        lemma_expr_nets(sc.after(left), b);
        lemma_nets_chain(left, right, Some(1), Some(1));
        lemma_nets_followed_op(chain(left, right), op, a.numeric(), Some(2));
    }
    assert(net_effect(ac) == Some(2int)) by {
        lemma_value_effect(a);
        lemma_value_effect(b);
        lemma_expr_nets(sc.after(strict), a);
        lemma_expr_nets(sc.after(left2), b);
        lemma_nets_chain(left2, right2, Some(1), Some(1));
    }
    assert(net_effect(jump) == Some(0int)) by {
        lemma_net_3(SpecAsm::DUP, SpecAsm::NOT, SpecAsm::JUMPIFFALSE(label));
    }
    lemma_guarded_paths(sc_code, jump, ac);
    assert(net_effect(sc_code + jump + seq![SpecAsm::POP] + ac + seq![SpecAsm::EQUALS]) == Some(
        1int,
    )) by {
        lemma_net_1(SpecAsm::EQUALS);
        lemma_net_concat(sc_code + jump + seq![SpecAsm::POP] + ac, seq![SpecAsm::EQUALS]);
    }
}

/// The list of `>=` or `<=`: the strict comparison, the test up to its
/// jump, `POP`, both operands again, `EQUALS`, and the label.
proof fn lemma_ordered_or_equal_shape(sc: Scope, e: Expr)
    requires
        e matches Expr::Binop(_, op, _, _) && (op is GtrOrEqu || op is LssOrEqu),
        expr_code(sc, e) is Ok,
    ensures
        e matches Expr::Binop(_, op, a, b) && {
            let left = expr_code(sc.skip_labels(1), *a);
            let right = expr_code(sc.after(left), *b);
            let strict = followed_by_op(chain(left, right), typed_op(op, a.numeric()));
            let again = chain(
                expr_code(sc.after(strict), *a),
                expr_code(sc.after(expr_code(sc.after(strict), *a)), *b),
            );
            &&& strict is Ok
            &&& again is Ok
            &&& expr_code(sc, e).unwrap().code == strict.unwrap().code + seq![
                SpecAsm::DUP,
                SpecAsm::NOT,
                SpecAsm::JUMPIFFALSE(sc.next),
            ] + seq![SpecAsm::POP] + again.unwrap().code + seq![SpecAsm::EQUALS] + seq![
                SpecAsm::LABEL(sc.next),
            ]
        },
{
    match e {
        Expr::Binop(_, op, a, b) => {
            let left = expr_code(sc.skip_labels(1), *a);
            let right = expr_code(sc.after(left), *b);
            let strict = followed_by_op(chain(left, right), typed_op(op, a.numeric()));
            let again = chain(
                expr_code(sc.after(strict), *a),
                expr_code(sc.after(expr_code(sc.after(strict), *a)), *b),
            );
            let jump = seq![SpecAsm::DUP, SpecAsm::NOT, SpecAsm::JUMPIFFALSE(sc.next)];
            let test = seq![
                SpecAsm::DUP,
                SpecAsm::NOT,
                SpecAsm::JUMPIFFALSE(sc.next),
                SpecAsm::POP,
            ];
            let tail = seq![SpecAsm::EQUALS, SpecAsm::LABEL(sc.next)];
            let x = strict.unwrap().code;
            let y = again.unwrap().code;
            assert(expr_code(sc, e) == binop_code(sc, e));
            assert(binop_code(sc, e) == ordered_or_equal_code(sc, e));
            assert(ordered_or_equal_code(sc, e).unwrap().code == x + test + y + tail);
            assert(x + test == x + jump + seq![SpecAsm::POP]) by {
                assert(test =~= jump + seq![SpecAsm::POP]);
                assert(x + (jump + seq![SpecAsm::POP]) =~= x + jump + seq![SpecAsm::POP]);
            }
            assert(x + test + y + tail == x + test + y + seq![SpecAsm::EQUALS] + seq![
                SpecAsm::LABEL(sc.next),
            ]) by {
                assert(tail =~= seq![SpecAsm::EQUALS] + seq![SpecAsm::LABEL(sc.next)]);
                assert((x + test + y) + (seq![SpecAsm::EQUALS] + seq![SpecAsm::LABEL(sc.next)])
                    =~= x + test + y + seq![SpecAsm::EQUALS] + seq![SpecAsm::LABEL(sc.next)]);
            }
        },
        _ => {},
    }
}

/// Both paths through a conditional meet at equal depth. When the test
/// fails, the jump arrives at the first label with the stack as deep as
/// the conditional found it; so does the taken body, which arrives at the
/// first label by falling through or, with an alternative, at the second
/// label by its jump; and so does the alternative at the second label.
pub proof fn conditional_paths_meet(
    sc: Scope,
    t: TType,
    test: Expr,
    body: Vec<Statement>,
    alternative: Option<Vec<Statement>>,
)
    requires
        stmt_code(sc, Statement::If(t, test, body, alternative)) is Ok,
        is_value(test),
        all_balanced(body@, body@.len()),
        alternative matches Some(alt) ==> all_balanced(alt@, alt@.len()),
    ensures
        ({
            let tested = followed_by(
                expr_code(sc.skip_labels(2), test),
                seq![SpecAsm::JUMPIFFALSE(sc.next)],
            );
            let taken = chain(tested, block_code(sc.after(tested), body@, body@.len()));
            let whole = stmt_code(sc, Statement::If(t, test, body, alternative)).unwrap().code;
            &&& taken is Ok
            &&& net_effect(tested.unwrap().code) == Some(0int)
            &&& net_effect(taken.unwrap().code) == Some(0int)
            &&& match alternative {
                None => whole == taken.unwrap().code + seq![SpecAsm::LABEL(sc.next)],
                Some(alt) => {
                    let left = taken.unwrap().code + seq![SpecAsm::JMP((sc.next + 1) as usize)];
                    let other = block_code(sc.after(taken), alt@, alt@.len());
                    &&& other is Ok
                    &&& whole == left + seq![SpecAsm::LABEL(sc.next)] + other.unwrap().code
                        + seq![SpecAsm::LABEL((sc.next + 1) as usize)]
                    &&& net_effect(left) == Some(0int)
                    &&& net_effect(left + seq![SpecAsm::LABEL(sc.next)] + other.unwrap().code)
                        == Some(0int)
                },
            }
        }),
{
    let s = Statement::If(t, test, body, alternative);
    let otherwise = sc.next;
    let end = (sc.next + 1) as usize;
    let tc = expr_code(sc.skip_labels(2), test);
    let tested = followed_by(tc, seq![SpecAsm::JUMPIFFALSE(otherwise)]);
    let b = block_code(sc.after(tested), body@, body@.len());
    let taken = chain(tested, b);
    assert(stmt_code(sc, s) == if_code(sc, s));
    assert(sc.after(tested) == sc.after(tc));
    lemma_value_effect(test);
    lemma_expr_nets(sc.skip_labels(2), test);
    lemma_block_balanced_effect(body@, body@.len());
    lemma_block_nets(sc.after(tested), body@, body@.len());
    lemma_net_1(SpecAsm::JUMPIFFALSE(otherwise));
    lemma_net_concat(tc.unwrap().code, seq![SpecAsm::JUMPIFFALSE(otherwise)]);
    lemma_net_concat(tested.unwrap().code, b.unwrap().code);
    match alternative {
        None => {
            assert(stmt_code(sc, s).unwrap().code =~= taken.unwrap().code + seq![
                SpecAsm::LABEL(otherwise),
            ]);
        },
        Some(alt) => {
            let other = block_code(sc.after(taken), alt@, alt@.len());
            let left = taken.unwrap().code + seq![SpecAsm::JMP(end)];
            lemma_block_balanced_effect(alt@, alt@.len());
            lemma_block_nets(sc.after(taken), alt@, alt@.len());
            lemma_net_1(SpecAsm::JMP(end));
            lemma_net_1(SpecAsm::LABEL(otherwise));
            lemma_net_concat(taken.unwrap().code, seq![SpecAsm::JMP(end)]);
            lemma_net_concat(left, seq![SpecAsm::LABEL(otherwise)]);
            lemma_net_concat(left + seq![SpecAsm::LABEL(otherwise)], other.unwrap().code);
            assert(stmt_code(sc, s).unwrap().code =~= left + seq![SpecAsm::LABEL(otherwise)]
                + other.unwrap().code + seq![SpecAsm::LABEL(end)]);
        },
    }
}

/// The paths of a while loop meet at equal depth: the jump back arrives
/// at the top, and both the failed test and the end of the list arrive at
/// the end, with the stack as deep as the loop found it.
pub proof fn while_paths_meet(sc: Scope, test: Expr, body: Vec<Statement>)
    requires
        stmt_code(sc, Statement::While(test, body)) is Ok,
        is_value(test),
        all_balanced(body@, body@.len()),
    ensures
        ({
            let top = sc.next;
            let end = (sc.next + 1) as usize;
            let inner = sc.skip_labels(2).in_loop(end);
            let tested = followed_by(
                chain(sc.emit(seq![SpecAsm::LABEL(top)]), expr_code(inner, test)),
                seq![SpecAsm::JUMPIFFALSE(end)],
            );
            let looped = followed_by(
                chain(tested, block_code(inner.after(tested), body@, body@.len())),
                seq![SpecAsm::BJMP(top)],
            );
            &&& looped is Ok
            &&& stmt_code(sc, Statement::While(test, body)).unwrap().code
                == looped.unwrap().code + seq![SpecAsm::LABEL(end)]
            &&& net_effect(tested.unwrap().code) == Some(0int)
            &&& net_effect(looped.unwrap().code) == Some(0int)
        }),
{
    let s = Statement::While(test, body);
    let top = sc.next;
    let end = (sc.next + 1) as usize;
    let inner = sc.skip_labels(2).in_loop(end);
    let tc = expr_code(inner, test);
    let head = chain(sc.emit(seq![SpecAsm::LABEL(top)]), tc);
    let tested = followed_by(head, seq![SpecAsm::JUMPIFFALSE(end)]);
    let b = block_code(inner.after(tested), body@, body@.len());
    assert(stmt_code(sc, s) == while_code(sc, s));
    assert(inner.after(tested) == inner.after(tc));
    lemma_value_effect(test);
    lemma_expr_nets(inner, test);
    lemma_block_balanced_effect(body@, body@.len());
    lemma_block_nets(inner.after(tested), body@, body@.len());
    lemma_net_1(SpecAsm::LABEL(top));
    lemma_net_1(SpecAsm::JUMPIFFALSE(end));
    lemma_net_1(SpecAsm::BJMP(top));
    lemma_net_concat(seq![SpecAsm::LABEL(top)], tc.unwrap().code);
    lemma_net_concat(head.unwrap().code, seq![SpecAsm::JUMPIFFALSE(end)]);
    lemma_net_concat(tested.unwrap().code, b.unwrap().code);
    lemma_net_concat(tested.unwrap().code + b.unwrap().code, seq![SpecAsm::BJMP(top)]);
    assert(stmt_code(sc, s).unwrap().code =~= tested.unwrap().code + b.unwrap().code + seq![
        SpecAsm::BJMP(top),
    ] + seq![SpecAsm::LABEL(end)]);
}

/// The paths of a for loop meet at equal depth: the initialiser reaches
/// the top, the jump back arrives at the top, and both the failed test and
/// the end of the list arrive at the end, with the stack as deep as the
/// loop found it.
pub proof fn for_paths_meet(sc: Scope, init: Expr, test: Expr, step: Expr, body: Vec<Statement>)
    requires
        stmt_code(sc, Statement::For(init, test, step, body)) is Ok,
        is_action(init),
        is_value(test),
        is_action(step),
        all_balanced(body@, body@.len()),
    ensures
        ({
            let top = sc.next;
            let end = (sc.next + 1) as usize;
            let inner = sc.skip_labels(2).in_loop(end);
            let started = expr_code(inner, init);
            let tested = followed_by(
                chain(
                    followed_by(started, seq![SpecAsm::LABEL(top)]),
                    expr_code(inner.after(started), test),
                ),
                seq![SpecAsm::JUMPIFFALSE(end)],
            );
            let stepped = chain(
                chain(tested, block_code(inner.after(tested), body@, body@.len())),
                expr_code(
                    inner.after(block_code(inner.after(tested), body@, body@.len())),
                    step,
                ),
            );
            let looped = followed_by(stepped, seq![SpecAsm::BJMP(top)]);
            &&& looped is Ok
            &&& stmt_code(sc, Statement::For(init, test, step, body)).unwrap().code
                == looped.unwrap().code + seq![SpecAsm::LABEL(end)]
            &&& net_effect(started.unwrap().code) == Some(0int)
            &&& net_effect(tested.unwrap().code) == Some(0int)
            &&& net_effect(looped.unwrap().code) == Some(0int)
        }),
{
    let s = Statement::For(init, test, step, body);
    let top = sc.next;
    let end = (sc.next + 1) as usize;
    let inner = sc.skip_labels(2).in_loop(end);
    let ic = expr_code(inner, init);
    let started = followed_by(ic, seq![SpecAsm::LABEL(top)]);
    let tc = expr_code(inner.after(ic), test);
    let tested = followed_by(chain(started, tc), seq![SpecAsm::JUMPIFFALSE(end)]);
    let b = block_code(inner.after(tested), body@, body@.len());
    let n = expr_code(inner.after(b), step);
    let stepped = chain(chain(tested, b), n);
    assert(stmt_code(sc, s) == for_code(sc, s));
    assert(inner.after(started) == inner.after(ic));
    assert(inner.after(tested) == inner.after(tc));
    lemma_action_effect(init);
    lemma_value_effect(test);
    lemma_action_effect(step);
    lemma_expr_nets(inner, init);
    lemma_expr_nets(inner.after(ic), test);
    lemma_block_balanced_effect(body@, body@.len());
    lemma_block_nets(inner.after(tested), body@, body@.len());
    lemma_expr_nets(inner.after(b), step);
    lemma_net_1(SpecAsm::LABEL(top));
    lemma_net_1(SpecAsm::JUMPIFFALSE(end));
    lemma_net_1(SpecAsm::BJMP(top));
    lemma_net_concat(ic.unwrap().code, seq![SpecAsm::LABEL(top)]);
    lemma_net_concat(started.unwrap().code, tc.unwrap().code);
    lemma_net_concat(started.unwrap().code + tc.unwrap().code, seq![SpecAsm::JUMPIFFALSE(end)]);
    lemma_net_concat(tested.unwrap().code, b.unwrap().code);
    lemma_net_concat(tested.unwrap().code + b.unwrap().code, n.unwrap().code);
    lemma_net_concat(stepped.unwrap().code, seq![SpecAsm::BJMP(top)]);
    assert(stmt_code(sc, s).unwrap().code =~= stepped.unwrap().code + seq![SpecAsm::BJMP(top)]
        + seq![SpecAsm::LABEL(end)]);
}

} // verus!
