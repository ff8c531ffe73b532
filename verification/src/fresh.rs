//! Label ids are fresh and unique: whatever a lowering places as a label
//! was unused before it, is used up after it, and is placed once.

use vstd::prelude::*;
use crate::code::SpecAsm;
use crate::lowering::{
    arg_names, assignment_code, atom_code, binop_code, block_code, body_scope, callee_code,
    captures_code, chain, closure_code, compound_code, expr_code, exprs_code, followed_by,
    followed_by_op, for_code, function_code, if_code, operands_code, ordered_or_equal_code,
    ref_code, ref_index_code, short_circuit_code, short_circuit_test, stmt_code, store_code,
    struct_code, typed_op, while_code, Lowered, Scope,
};
use crate::nodes::{Atom, Expr, Statement};
use crate::stack::lacks_label;
use crate::table::names;
use crate::tokens::{Numeric, Operator};

verus! {

/// How often `LABEL(label)` stands in the list.
pub open spec fn count_label(code: Seq<SpecAsm>, label: usize) -> nat
    decreases code.len(),
{
    if code.len() == 0 {
        0
    } else {
        count_label(code.drop_last(), label) + if code.last() == SpecAsm::LABEL(label) {
            1nat
        } else {
            0nat
        }
    }
}

/// The most often that a label may stand in a list whose labels are taken
/// from `lo` up to, but not including, `hi`: once inside, never outside.
pub open spec fn at_most(lo: int, hi: int, label: usize) -> nat {
    if lo <= label < hi {
        1
    } else {
        0
    }
}

/// Every label id from `lo` up to `hi` stands in `code` at most once, and
/// no other label id stands in it.
pub open spec fn labels_once(code: Seq<SpecAsm>, lo: int, hi: int) -> bool {
    forall|l: usize| #[trigger] count_label(code, l) <= at_most(lo, hi, l)
}

/// `r`, if it succeeded with `from` as the next unused label id, placed
/// only labels that were unused then and are used up now, and each of them
/// once.
pub open spec fn places_fresh_labels(from: usize, r: Lowered) -> bool {
    r matches Ok(out) ==> from <= out.next && labels_once(out.code, from as int, out.next as int)
}

/// Counting over a concatenation adds up.
pub proof fn lemma_count_concat(a: Seq<SpecAsm>, b: Seq<SpecAsm>, label: usize)
    ensures
        count_label(a + b, label) == count_label(a, label) + count_label(b, label),
    decreases b.len(),
{
    if b.len() == 0 {
        assert(a + b =~= a);
    } else {
        lemma_count_concat(a, b.drop_last(), label);
        assert((a + b).drop_last() =~= a + b.drop_last());
    }
}

/// Counting after one more instruction.
pub proof fn lemma_count_push(code: Seq<SpecAsm>, op: SpecAsm, label: usize)
    ensures
        count_label(code.push(op), label) == count_label(code, label) + if op == SpecAsm::LABEL(
            label,
        ) {
            1nat
        } else {
            0nat
        },
{
    assert(code.push(op).drop_last() =~= code);
}

/// A list without labels counts zero for every label.
pub proof fn lemma_count_plain(code: Seq<SpecAsm>, label: usize)
    requires
        forall|i: int| 0 <= i < code.len() ==> !(#[trigger] code[i] is LABEL),
    ensures
        count_label(code, label) == 0,
    decreases code.len(),
{
    if code.len() > 0 {
        assert(!(code[code.len() - 1] is LABEL));
        assert forall|i: int| 0 <= i < code.drop_last().len() implies !(
        #[trigger] code.drop_last()[i] is LABEL) by {
            assert(code.drop_last()[i] == code[i]);
        }
        lemma_count_plain(code.drop_last(), label);
    }
}

/// A list that ends in its only label counts one for that label and zero
/// for every other.
pub proof fn lemma_count_closing(code: Seq<SpecAsm>, placed: usize, label: usize)
    requires
        code.len() > 0,
        code.last() == SpecAsm::LABEL(placed),
        forall|i: int| 0 <= i < code.len() - 1 ==> !(#[trigger] code[i] is LABEL),
    ensures
        count_label(code, label) == if label == placed {
            1nat
        } else {
            0nat
        },
{
    assert forall|i: int| 0 <= i < code.drop_last().len() implies !(
    #[trigger] code.drop_last()[i] is LABEL) by {
        assert(code.drop_last()[i] == code[i]);
    }
    lemma_count_plain(code.drop_last(), label);
}

/// A label that is counted zero times stands nowhere.
pub proof fn lemma_uncounted_is_lacking(code: Seq<SpecAsm>, label: usize)
    requires
        count_label(code, label) == 0,
    ensures
        lacks_label(code, label),
    decreases code.len(),
{
    if code.len() > 0 {
        lemma_uncounted_is_lacking(code.drop_last(), label);
        assert forall|i: int| 0 <= i < code.len() implies code[i] != SpecAsm::LABEL(label) by {
            if i < code.len() - 1 {
                assert(code[i] == code.drop_last()[i]);
            }
        }
    }
}

/// Two lowerings in a row place fresh labels if each does.
pub proof fn lemma_fresh_chain(from: usize, a: Lowered, b: Lowered)
    requires
        places_fresh_labels(from, a),
        a matches Ok(x) ==> places_fresh_labels(x.next, b),
    ensures
        places_fresh_labels(from, chain(a, b)),
{
    if let Ok(x) = a {
        if let Ok(y) = b {
            assert forall|l: usize| #[trigger] count_label(x.code + y.code, l) <= at_most(
                from as int,
                y.next as int,
                l,
            ) by {
                lemma_count_concat(x.code, y.code, l);
                assert(count_label(x.code, l) <= at_most(from as int, x.next as int, l));
                assert(count_label(y.code, l) <= at_most(x.next as int, y.next as int, l));
            }
        }
    }
}

/// Instructions without labels after a lowering keep its labels fresh.
pub proof fn lemma_fresh_followed(from: usize, a: Lowered, code: Seq<SpecAsm>)
    requires
        places_fresh_labels(from, a),
        forall|i: int| 0 <= i < code.len() ==> !(#[trigger] code[i] is LABEL),
    ensures
        places_fresh_labels(from, followed_by(a, code)),
{
    if let Ok(x) = a {
        assert forall|l: usize| #[trigger] count_label(x.code + code, l) <= at_most(
            from as int,
            x.next as int,
            l,
        ) by {
            lemma_count_concat(x.code, code, l);
            lemma_count_plain(code, l);
            assert(count_label(x.code, l) <= at_most(from as int, x.next as int, l));
        }
    }
}

/// A typed instruction after a lowering keeps its labels fresh.
pub proof fn lemma_fresh_followed_op(
    from: usize,
    a: Lowered,
    op: Operator,
    class: Numeric,
)
    requires
        places_fresh_labels(from, a),
    ensures
        places_fresh_labels(from, followed_by_op(a, typed_op(op, class))),
{
    if let Ok(x) = a {
        if let Ok(i) = typed_op(op, class) {
            assert forall|l: usize| #[trigger] count_label(x.code.push(i), l) <= at_most(
                from as int,
                x.next as int,
                l,
            ) by {
                lemma_count_push(x.code, i, l);
                assert(count_label(x.code, l) <= at_most(from as int, x.next as int, l));
            }
        }
    }
}

/// Instructions that end in the label `placed`, after a lowering whose
/// own labels all come after `placed`, keep the labels fresh from any id
/// up to `placed`.
pub proof fn lemma_fresh_closed(
    from: usize,
    placed: usize,
    inner: usize,
    a: Lowered,
    code: Seq<SpecAsm>,
)
    requires
        from <= placed < inner,
        places_fresh_labels(inner, a),
        code.len() > 0,
        code.last() == SpecAsm::LABEL(placed),
        forall|i: int| 0 <= i < code.len() - 1 ==> !(#[trigger] code[i] is LABEL),
    ensures
        places_fresh_labels(from, followed_by(a, code)),
{
    if let Ok(x) = a {
        assert forall|l: usize| #[trigger] count_label(x.code + code, l) <= at_most(
            from as int,
            x.next as int,
            l,
        ) by {
            lemma_count_concat(x.code, code, l);
            lemma_count_closing(code, placed, l);
            assert(count_label(x.code, l) <= at_most(inner as int, x.next as int, l));
        }
    }
}

/// A lowering that issues no label id and emits no label places fresh
/// labels: none.
pub proof fn lemma_fresh_plain(sc: Scope, r: Lowered)
    requires
        r matches Ok(out) ==> out.next == sc.next && forall|i: int|
            0 <= i < out.code.len() ==> !(#[trigger] out.code[i] is LABEL),
    ensures
        places_fresh_labels(sc.next, r),
{
    if let Ok(out) = r {
        assert forall|l: usize| #[trigger] count_label(out.code, l) <= at_most(
            sc.next as int,
            out.next as int,
            l,
        ) by {
            lemma_count_plain(out.code, l);
        }
    }
}

/// Whether no label stands in the list.
pub open spec fn label_free(code: Seq<SpecAsm>) -> bool {
    forall|i: int| 0 <= i < code.len() ==> !(#[trigger] code[i] is LABEL)
}

/// An assignment target issues no label id and places no label.
pub proof fn lemma_ref_plain(sc: Scope, e: Expr)
    ensures
        ref_code(sc, e) matches Ok(out) ==> out.next == sc.next && label_free(out.code),
    decreases e,
{
    match e {
        Expr::Field(_, _, index, base) => {
            lemma_ref_plain(sc, *base);
            if let Ok(b) = ref_code(sc, *base) {
                if index <= i64::MAX {
                    let code = ref_code(sc, e).unwrap().code;
                    assert(code =~= seq![SpecAsm::INTEGER(index as i64)] + b.code + seq![
                        SpecAsm::PIN,
                    ]);
                    assert forall|i: int| 0 <= i < code.len() implies !(#[trigger] code[i]
                        is LABEL) by {
                        if 1 <= i < 1 + b.code.len() {
                            assert(code[i] == b.code[i - 1]);
                        }
                    }
                }
            }
        },
        Expr::Indexed(_, _, index, base) => {
            lemma_ref_plain(sc, *base);
            if let Ok(b) = ref_code(sc, *base) {
                if let Ok(x) = ref_index_code(sc, *index) {
                    let code = ref_code(sc, e).unwrap().code;
                    assert(x.code.len() == 1);
                    assert(code =~= x.code + b.code + seq![SpecAsm::PIN]);
                    assert forall|i: int| 0 <= i < code.len() implies !(#[trigger] code[i]
                        is LABEL) by {
                        if 1 <= i < 1 + b.code.len() {
                            assert(code[i] == b.code[i - 1]);
                        }
                    }
                }
            }
        },
        _ => {},
    }
}

/// An assignment target, lowered anywhere, places fresh labels: none.
pub proof fn lemma_ref_fresh(sc: Scope, e: Expr)
    ensures
        places_fresh_labels(sc.next, ref_code(sc, e)),
{
    lemma_ref_plain(sc, e);
    lemma_fresh_plain(sc, ref_code(sc, e));
}

/// Fetching captured names issues no label id and places no label.
pub proof fn lemma_captures_plain(sc: Scope, captured: Seq<String>, n: nat)
    ensures
        captures_code(sc, captured, n) matches Ok(out) ==> out.next == sc.next && label_free(
            out.code,
        ),
    decreases n,
{
    if !(n == 0 || n > captured.len()) {
        lemma_captures_plain(sc, captured, (n - 1) as nat);
    }
}

/// An expression places fresh labels.
pub proof fn lemma_expr_fresh(sc: Scope, e: Expr)
    ensures
        places_fresh_labels(sc.next, expr_code(sc, e)),
    decreases e, 2nat,
{
    match e {
        Expr::Empty => {
            lemma_fresh_plain(sc, sc.emit(seq![]));
        },
        Expr::ListConstructor(_, list) => {
            lemma_exprs_fresh(sc, list@, list@.len());
            lemma_fresh_followed(
                sc.next,
                exprs_code(sc, list@, list@.len()),
                seq![SpecAsm::LIST(list@.len() as usize)],
            );
        },
        Expr::Field(_, _, index, base) => {
            let first = sc.emit(seq![SpecAsm::INTEGER(index as i64)]);
            let b = expr_code(sc, *base);
            lemma_expr_fresh(sc, *base);
            lemma_fresh_plain(sc, first);
            lemma_fresh_chain(sc.next, first, b);
            lemma_fresh_followed(sc.next, chain(first, b), seq![SpecAsm::LIN]);
        },
        Expr::Indexed(_, _, index, base) => {
            let i = expr_code(sc, *index);
            let b = expr_code(sc.after(i), *base);
            lemma_expr_fresh(sc, *index);
            lemma_expr_fresh(sc.after(i), *base);
            lemma_fresh_chain(sc.next, i, b);
            lemma_fresh_followed(sc.next, chain(i, b), seq![SpecAsm::LIN]);
        },
        Expr::Call(_, _, callee, args) => {
            let a = exprs_code(sc, args@, args@.len());
            let c = ref_code(sc.after(a), *callee);
            lemma_exprs_fresh(sc, args@, args@.len());
            lemma_ref_fresh(sc.after(a), *callee);
            lemma_fresh_chain(sc.next, a, c);
            lemma_fresh_followed(sc.next, chain(a, c), seq![SpecAsm::CALL]);
        },
        Expr::Unary(_, _, operand) => {
            lemma_expr_fresh(sc, *operand);
            lemma_fresh_followed(sc.next, expr_code(sc, *operand), seq![SpecAsm::NEG]);
            lemma_fresh_followed(sc.next, expr_code(sc, *operand), seq![SpecAsm::NOT]);
        },
        Expr::Binop(_, _, _, _) => {
            lemma_binop_fresh(sc, e);
        },
        Expr::Literal(_, atom) => {
            lemma_atom_fresh(sc, atom);
        },
        Expr::Closure(_, _, _, _) => {
            lemma_closure_fresh(sc, e);
        },
    }
}

/// A list of expressions places fresh labels.
pub proof fn lemma_exprs_fresh(sc: Scope, list: Seq<Expr>, n: nat)
    ensures
        places_fresh_labels(sc.next, exprs_code(sc, list, n)),
    decreases list, n,
{
    if n == 0 || n > list.len() {
        lemma_fresh_plain(sc, sc.emit(seq![]));
    } else {
        let front = exprs_code(sc, list, (n - 1) as nat);
        lemma_exprs_fresh(sc, list, (n - 1) as nat);
        lemma_expr_fresh(sc.after(front), list[n - 1]);
        lemma_fresh_chain(sc.next, front, expr_code(sc.after(front), list[n - 1]));
    }
}

/// An atom places fresh labels.
pub proof fn lemma_atom_fresh(sc: Scope, atom: Atom)
    ensures
        places_fresh_labels(sc.next, atom_code(sc, atom)),
    decreases atom, 0nat,
{
    match atom {
        Atom::Call(name, args) => {
            let a = exprs_code(sc, args@, args@.len());
            lemma_exprs_fresh(sc, args@, args@.len());
            lemma_fresh_plain(sc.after(a), callee_code(sc.after(a), name@));
            lemma_fresh_chain(sc.next, a, callee_code(sc.after(a), name@));
        },
        _ => {
            lemma_fresh_plain(sc, atom_code(sc, atom));
        },
    }
}

/// An infix operation places fresh labels.
pub proof fn lemma_binop_fresh(sc: Scope, e: Expr)
    ensures
        places_fresh_labels(sc.next, binop_code(sc, e)),
    decreases e, 1nat,
{
    if e is Binop {
        lemma_operands_fresh(sc, e);
        lemma_assignment_fresh(sc, e);
        lemma_compound_fresh(sc, e);
        lemma_ordered_or_equal_fresh(sc, e);
        lemma_short_circuit_fresh(sc, e);
    }
}

/// An operator on two values places fresh labels.
pub proof fn lemma_operands_fresh(sc: Scope, e: Expr)
    ensures
        places_fresh_labels(sc.next, operands_code(sc, e)),
    decreases e, 0nat,
{
    match e {
        Expr::Binop(_, op, lhs, rhs) => {
            let l = expr_code(sc, *lhs);
            let r = expr_code(sc.after(l), *rhs);
            lemma_expr_fresh(sc, *lhs);
            lemma_expr_fresh(sc.after(l), *rhs);
            lemma_fresh_chain(sc.next, l, r);
            lemma_fresh_followed(sc.next, chain(l, r), seq![SpecAsm::EQUALS]);
            lemma_fresh_followed(sc.next, chain(l, r), seq![SpecAsm::EQUALS, SpecAsm::NOT]);
            lemma_fresh_followed(sc.next, chain(l, r), seq![SpecAsm::NOT]);
            lemma_fresh_followed_op(sc.next, chain(l, r), op, lhs.numeric());
        },
        _ => {},
    }
}

/// An assignment places fresh labels.
pub proof fn lemma_assignment_fresh(sc: Scope, e: Expr)
    ensures
        places_fresh_labels(sc.next, assignment_code(sc, e)),
    decreases e, 0nat,
{
    match e {
        Expr::Binop(_, _, lhs, rhs) => {
            let r = expr_code(sc, *rhs);
            let t = ref_code(sc.after(r), *lhs);
            lemma_expr_fresh(sc, *rhs);
            lemma_ref_fresh(sc.after(r), *lhs);
            lemma_fresh_chain(sc.next, r, t);
            lemma_fresh_followed(sc.next, chain(r, t), seq![SpecAsm::ASSIGN]);
        },
        _ => {},
    }
}

/// A compound assignment places fresh labels.
pub proof fn lemma_compound_fresh(sc: Scope, e: Expr)
    ensures
        places_fresh_labels(sc.next, compound_code(sc, e)),
    decreases e, 0nat,
{
    match e {
        Expr::Binop(_, op, lhs, rhs) => {
            let r = expr_code(sc, *rhs);
            let l = expr_code(sc.after(r), *lhs);
            lemma_expr_fresh(sc, *rhs);
            lemma_expr_fresh(sc.after(r), *lhs);
            lemma_fresh_chain(sc.next, r, l);
            let value = followed_by_op(chain(r, l), typed_op(op, lhs.numeric()));
            lemma_fresh_followed_op(sc.next, chain(r, l), op, lhs.numeric());
            let t = ref_code(sc.after(value), *lhs);
            lemma_ref_fresh(sc.after(value), *lhs);
            lemma_fresh_chain(sc.next, value, t);
            lemma_fresh_followed(sc.next, chain(value, t), seq![SpecAsm::ASSIGN]);
        },
        _ => {},
    }
}

/// `>=` and `<=` place fresh labels, their own last.
pub proof fn lemma_ordered_or_equal_fresh(sc: Scope, e: Expr)
    ensures
        places_fresh_labels(sc.next, ordered_or_equal_code(sc, e)),
    decreases e, 0nat,
{
    match e {
        Expr::Binop(_, op, lhs, rhs) => {
            if sc.has_labels(1) {
                let label = sc.next;
                let inner = sc.skip_labels(1).next;
                let l = expr_code(sc.skip_labels(1), *lhs);
                let r = expr_code(sc.after(l), *rhs);
                lemma_expr_fresh(sc.skip_labels(1), *lhs);
                lemma_expr_fresh(sc.after(l), *rhs);
                lemma_fresh_chain(inner, l, r);
                let strict = followed_by_op(chain(l, r), typed_op(op, lhs.numeric()));
                lemma_fresh_followed_op(inner, chain(l, r), op, lhs.numeric());
                let test = seq![
                    SpecAsm::DUP,
                    SpecAsm::NOT,
                    SpecAsm::JUMPIFFALSE(label),
                    SpecAsm::POP,
                ];
                lemma_fresh_followed(inner, strict, test);
                let l2 = expr_code(sc.after(strict), *lhs);
                let r2 = expr_code(sc.after(l2), *rhs);
                lemma_expr_fresh(sc.after(strict), *lhs);
                lemma_expr_fresh(sc.after(l2), *rhs);
                if let Ok(s) = strict {
                    lemma_fresh_chain(s.next, l2, r2);
                }
                lemma_fresh_chain(inner, followed_by(strict, test), chain(l2, r2));
                lemma_fresh_closed(
                    sc.next,
                    label,
                    inner,
                    chain(followed_by(strict, test), chain(l2, r2)),
                    seq![SpecAsm::EQUALS, SpecAsm::LABEL(label)],
                );
            }
        },
        _ => {},
    }
}

/// `&&` and `||` place fresh labels, their own last.
pub proof fn lemma_short_circuit_fresh(sc: Scope, e: Expr)
    ensures
        places_fresh_labels(sc.next, short_circuit_code(sc, e)),
    decreases e, 0nat,
{
    match e {
        Expr::Binop(_, op, lhs, rhs) => {
            if sc.has_labels(1) {
                let label = sc.next;
                let inner = sc.skip_labels(1).next;
                let l = expr_code(sc.skip_labels(1), *lhs);
                let r = expr_code(sc.after(l), *rhs);
                lemma_expr_fresh(sc.skip_labels(1), *lhs);
                lemma_expr_fresh(sc.after(l), *rhs);
                let test = short_circuit_test(op, label);
                lemma_fresh_followed(inner, l, test);
                lemma_fresh_chain(inner, followed_by(l, test), r);
                lemma_fresh_closed(
                    sc.next,
                    label,
                    inner,
                    chain(followed_by(l, test), r),
                    seq![SpecAsm::LABEL(label)],
                );
            }
        },
        _ => {},
    }
}

/// A closure places fresh labels, its own last.
pub proof fn lemma_closure_fresh(sc: Scope, e: Expr)
    ensures
        places_fresh_labels(sc.next, closure_code(sc, e)),
    decreases e, 0nat,
{
    match e {
        Expr::Closure(_, params, body, captured) => {
            lemma_captures_plain(sc, captured@, captured@.len());
            if sc.has_labels(1) {
                let seeded = arg_names(params@) + names(captured@);
                let inner = body_scope(sc, seeded);
                lemma_block_fresh(inner, body@, body@.len());
                if let Ok(out) = closure_code(sc, e) {
                    let f = captures_code(sc, captured@, captured@.len()).unwrap();
                    let b = block_code(inner, body@, body@.len()).unwrap();
                    let head = f.code + seq![
                        SpecAsm::LIST(captured@.len() as usize),
                        SpecAsm::CLOSURE(sc.next),
                        SpecAsm::OFFSET(
                            seeded.len() as u32,
                            (b.locals.len() - seeded.len()) as u32,
                        ),
                    ];
                    let last = seq![SpecAsm::LABEL(sc.next)];
                    assert(out.code =~= head + b.code + last);
                    assert forall|i: int| 0 <= i < head.len() implies !(#[trigger] head[i]
                        is LABEL) by {
                        if i < f.code.len() {
                            assert(head[i] == f.code[i]);
                        }
                    }
                    assert forall|l: usize| #[trigger] count_label(out.code, l) <= at_most(
                        sc.next as int,
                        out.next as int,
                        l,
                    ) by {
                        lemma_count_concat(head + b.code, last, l);
                        lemma_count_concat(head, b.code, l);
                        lemma_count_plain(head, l);
                        lemma_count_closing(last, sc.next, l);
                        assert(count_label(b.code, l) <= at_most(
                            inner.next as int,
                            b.next as int,
                            l,
                        ));
                    }
                }
            }
        },
        _ => {},
    }
}

/// A statement places fresh labels.
pub proof fn lemma_stmt_fresh(sc: Scope, s: Statement)
    ensures
        places_fresh_labels(sc.next, stmt_code(sc, s)),
    decreases s, 1nat,
{
    match s {
        Statement::Pass => {
            lemma_fresh_plain(sc, sc.emit(seq![]));
        },
        Statement::Let(_, name, init) => {
            let v = expr_code(sc, init);
            lemma_expr_fresh(sc, init);
            lemma_fresh_plain(sc.after(v), store_code(sc.after(v), name@));
            lemma_fresh_chain(sc.next, v, store_code(sc.after(v), name@));
        },
        Statement::Function(_, _, _, _) => {
            lemma_function_fresh(sc, s);
        },
        Statement::Struct(_, name, fields) => {
            lemma_struct_fresh(sc, name@, fields@.len());
        },
        Statement::Return(_, value, _, _) => {
            lemma_expr_fresh(sc, value);
            lemma_fresh_followed(sc.next, expr_code(sc, value), seq![SpecAsm::RET(true)]);
            lemma_fresh_followed(sc.next, expr_code(sc, value), seq![SpecAsm::RET(false)]);
        },
        Statement::Expression(_, e) => {
            lemma_expr_fresh(sc, e);
        },
        Statement::If(_, _, _, _) => {
            lemma_if_fresh(sc, s);
        },
        Statement::While(_, _) => {
            lemma_while_fresh(sc, s);
        },
        Statement::For(_, _, _, _) => {
            lemma_for_fresh(sc, s);
        },
        Statement::Break => {
            lemma_fresh_plain(sc, stmt_code(sc, s));
        },
        Statement::Continue => {},
        Statement::Block(body) => {
            lemma_block_fresh(sc, body@, body@.len());
        },
    }
}

/// A struct declaration places its one label once.
pub proof fn lemma_struct_fresh(sc: Scope, name: Seq<char>, fields: nat)
    ensures
        places_fresh_labels(sc.next, struct_code(sc, name, fields)),
{
    if let Ok(out) = struct_code(sc, name, fields) {
        let made = seq![
            SpecAsm::FUNCTION(sc.next),
            SpecAsm::OFFSET((fields - 1) as u32, 0),
            SpecAsm::STRING(name),
            SpecAsm::LIST(fields as usize),
            SpecAsm::RET(true),
            SpecAsm::LABEL(sc.next),
        ];
        let stored = SpecAsm::STOREGLOBAL(sc.globals.len() as u32);
        assert(out.code =~= made.push(stored));
        assert forall|l: usize| #[trigger] count_label(out.code, l) <= at_most(
            sc.next as int,
            out.next as int,
            l,
        ) by {
            lemma_count_push(made, stored, l);
            lemma_count_closing(made, sc.next, l);
        }
    }
}

/// A function declaration places fresh labels, its own last.
pub proof fn lemma_function_fresh(sc: Scope, s: Statement)
    ensures
        places_fresh_labels(sc.next, function_code(sc, s)),
    decreases s, 0nat,
{
    match s {
        Statement::Function(_, name, params, body) => {
            if sc.has_labels(1) {
                let declared = Scope { globals: sc.globals.push(name@), ..sc };
                let inner = body_scope(declared, arg_names(params@));
                lemma_block_fresh(inner, body@, body@.len());
                if let Ok(out) = function_code(sc, s) {
                    let b = block_code(inner, body@, body@.len()).unwrap();
                    let head = seq![
                        SpecAsm::FUNCTION(sc.next),
                        SpecAsm::OFFSET(
                            params@.len() as u32,
                            (b.locals.len() - params@.len()) as u32,
                        ),
                    ];
                    let last = seq![SpecAsm::LABEL(sc.next)];
                    let stored = SpecAsm::STOREGLOBAL(sc.globals.len() as u32);
                    assert(out.code =~= (head + b.code + last).push(stored));
                    assert forall|l: usize| #[trigger] count_label(out.code, l) <= at_most(
                        sc.next as int,
                        out.next as int,
                        l,
                    ) by {
                        lemma_count_push(head + b.code + last, stored, l);
                        lemma_count_concat(head + b.code, last, l);
                        lemma_count_concat(head, b.code, l);
                        lemma_count_plain(head, l);
                        lemma_count_closing(last, sc.next, l);
                        assert(count_label(b.code, l) <= at_most(
                            inner.next as int,
                            b.next as int,
                            l,
                        ));
                    }
                }
            }
        },
        _ => {},
    }
}

/// A conditional places fresh labels: those of its test and blocks, and
/// its own two, of which the second only with an alternative.
pub proof fn lemma_if_fresh(sc: Scope, s: Statement)
    ensures
        places_fresh_labels(sc.next, if_code(sc, s)),
    decreases s, 0nat,
{
    match s {
        Statement::If(_, test, body, alternative) => {
            if sc.has_labels(2) {
                let otherwise = sc.next;
                let end = (sc.next + 1) as usize;
                let inner = sc.skip_labels(2).next;
                let t = expr_code(sc.skip_labels(2), test);
                let b = block_code(sc.after(t), body@, body@.len());
                let jumped = followed_by(t, seq![SpecAsm::JUMPIFFALSE(otherwise)]);
                let taken = chain(jumped, b);
                lemma_expr_fresh(sc.skip_labels(2), test);
                lemma_block_fresh(sc.after(t), body@, body@.len());
                lemma_fresh_followed(inner, t, seq![SpecAsm::JUMPIFFALSE(otherwise)]);
                lemma_fresh_chain(inner, jumped, b);
                match alternative {
                    None => {
                        lemma_fresh_closed(
                            sc.next,
                            otherwise,
                            inner,
                            taken,
                            seq![SpecAsm::LABEL(otherwise)],
                        );
                    },
                    Some(alt) => {
                        let a = block_code(sc.after(taken), alt@, alt@.len());
                        lemma_block_fresh(sc.after(taken), alt@, alt@.len());
                        if let Ok(out) = if_code(sc, s) {
                            let tc = taken.unwrap().code;
                            let ac = a.unwrap().code;
                            let middle = seq![SpecAsm::JMP(end), SpecAsm::LABEL(otherwise)];
                            let last = seq![SpecAsm::LABEL(end)];
                            assert(out.code =~= tc + middle + ac + last);
                            assert forall|l: usize| #[trigger] count_label(out.code, l)
                                <= at_most(sc.next as int, out.next as int, l) by {
                                lemma_count_concat(tc + middle + ac, last, l);
                                lemma_count_concat(tc + middle, ac, l);
                                lemma_count_concat(tc, middle, l);
                                lemma_count_closing(middle, otherwise, l);
                                lemma_count_closing(last, end, l);
                                assert(count_label(tc, l) <= at_most(
                                    inner as int,
                                    taken.unwrap().next as int,
                                    l,
                                ));
                                assert(count_label(ac, l) <= at_most(
                                    taken.unwrap().next as int,
                                    a.unwrap().next as int,
                                    l,
                                ));
                            }
                        }
                    },
                }
            }
        },
        _ => {},
    }
}

/// A while loop places fresh labels: those of its test and body, and its
/// own two.
pub proof fn lemma_while_fresh(sc: Scope, s: Statement)
    ensures
        places_fresh_labels(sc.next, while_code(sc, s)),
    decreases s, 0nat,
{
    match s {
        Statement::While(test, body) => {
            if sc.has_labels(2) {
                let top = sc.next;
                let end = (sc.next + 1) as usize;
                let inner = sc.skip_labels(2).in_loop(end);
                let t = expr_code(inner, test);
                let b = block_code(inner.after(t), body@, body@.len());
                lemma_expr_fresh(inner, test);
                lemma_block_fresh(inner.after(t), body@, body@.len());
                if let Ok(out) = while_code(sc, s) {
                    let tc = t.unwrap().code;
                    let bc = b.unwrap().code;
                    let first = seq![SpecAsm::LABEL(top)];
                    let jump = seq![SpecAsm::JUMPIFFALSE(end)];
                    let last = seq![SpecAsm::BJMP(top), SpecAsm::LABEL(end)];
                    assert(out.code =~= first + tc + jump + bc + last);
                    assert forall|l: usize| #[trigger] count_label(out.code, l) <= at_most(
                        sc.next as int,
                        out.next as int,
                        l,
                    ) by {
                        lemma_count_concat(first + tc + jump + bc, last, l);
                        lemma_count_concat(first + tc + jump, bc, l);
                        lemma_count_concat(first + tc, jump, l);
                        lemma_count_concat(first, tc, l);
                        lemma_count_closing(first, top, l);
                        lemma_count_plain(jump, l);
                        lemma_count_closing(last, end, l);
                        assert(count_label(tc, l) <= at_most(
                            inner.next as int,
                            t.unwrap().next as int,
                            l,
                        ));
                        assert(count_label(bc, l) <= at_most(
                            t.unwrap().next as int,
                            b.unwrap().next as int,
                            l,
                        ));
                    }
                }
            }
        },
        _ => {},
    }
}

/// The seven parts of a for loop in a row place each label once, when
/// the four lowered parts do so in ranges that follow one another after
/// the loop's own two labels.
proof fn lemma_for_parts_fresh(
    init: Seq<SpecAsm>,
    test: Seq<SpecAsm>,
    body: Seq<SpecAsm>,
    step: Seq<SpecAsm>,
    top: usize,
    n0: int,
    n1: int,
    n2: int,
    n3: int,
    n4: int,
)
    requires
        top + 2 == n0,
        n0 <= usize::MAX,
        n0 <= n1 <= n2 <= n3 <= n4,
        labels_once(init, n0, n1),
        labels_once(test, n1, n2),
        labels_once(body, n2, n3),
        labels_once(step, n3, n4),
    ensures
        labels_once(
            init + seq![SpecAsm::LABEL(top)] + test + seq![
                SpecAsm::JUMPIFFALSE((top + 1) as usize),
            ] + body + step + seq![SpecAsm::BJMP(top), SpecAsm::LABEL((top + 1) as usize)],
            top as int,
            n4,
        ),
{
    let end = (top + 1) as usize;
    let first = seq![SpecAsm::LABEL(top)];
    let jump = seq![SpecAsm::JUMPIFFALSE(end)];
    let last = seq![SpecAsm::BJMP(top), SpecAsm::LABEL(end)];
    let whole = init + first + test + jump + body + step + last;
    assert forall|l: usize| #[trigger] count_label(whole, l) <= at_most(top as int, n4, l) by {
        lemma_count_concat(init + first + test + jump + body + step, last, l);
        lemma_count_concat(init + first + test + jump + body, step, l);
        lemma_count_concat(init + first + test + jump, body, l);
        lemma_count_concat(init + first + test, jump, l);
        lemma_count_concat(init + first, test, l);
        lemma_count_concat(init, first, l);
        lemma_count_closing(first, top, l);
        lemma_count_plain(jump, l);
        lemma_count_closing(last, end, l);
        assert(count_label(init, l) <= at_most(n0, n1, l));
        assert(count_label(test, l) <= at_most(n1, n2, l));
        assert(count_label(body, l) <= at_most(n2, n3, l));
        assert(count_label(step, l) <= at_most(n3, n4, l));
    }
}

/// A for loop places fresh labels: those of its expressions and body, and
/// its own two.
pub proof fn lemma_for_fresh(sc: Scope, s: Statement)
    ensures
        places_fresh_labels(sc.next, for_code(sc, s)),
    decreases s, 0nat,
{
    match s {
        Statement::For(init, test, step, body) => {
            if sc.has_labels(2) {
                let top = sc.next;
                let end = (sc.next + 1) as usize;
                let inner = sc.skip_labels(2).in_loop(end);
                let i = expr_code(inner, init);
                let t = expr_code(inner.after(i), test);
                let b = block_code(inner.after(t), body@, body@.len());
                let n = expr_code(inner.after(b), step);
                lemma_expr_fresh(inner, init);
                lemma_expr_fresh(inner.after(i), test);
                lemma_block_fresh(inner.after(t), body@, body@.len());
                lemma_expr_fresh(inner.after(b), step);
                if let Ok(out) = for_code(sc, s) {
                    lemma_for_parts_fresh(
                        i.unwrap().code,
                        t.unwrap().code,
                        b.unwrap().code,
                        n.unwrap().code,
                        top,
                        inner.next as int,
                        i.unwrap().next as int,
                        t.unwrap().next as int,
                        b.unwrap().next as int,
                        n.unwrap().next as int,
                    );
                }
            }
        },
        _ => {},
    }
}

/// A block places fresh labels.
pub proof fn lemma_block_fresh(sc: Scope, block: Seq<Statement>, n: nat)
    ensures
        places_fresh_labels(sc.next, block_code(sc, block, n)),
    decreases block, n,
{
    if n == 0 || n > block.len() {
        lemma_fresh_plain(sc, sc.emit(seq![]));
    } else {
        let front = block_code(sc, block, (n - 1) as nat);
        lemma_block_fresh(sc, block, (n - 1) as nat);
        lemma_stmt_fresh(sc.after(front), block[n - 1]);
        lemma_fresh_chain(sc.next, front, stmt_code(sc.after(front), block[n - 1]));
    }
}

} // verus!
