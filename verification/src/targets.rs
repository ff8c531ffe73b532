//! Every jump lands: the label that a jump, a function or a closure names
//! stands in the same list, unless it is the exit of an enclosing loop.

use vstd::prelude::*;
use crate::code::SpecAsm;
use crate::fresh::{at_most, count_label, labels_once, lemma_count_concat};
use crate::lowering::{
    arg_names, assignment_code, atom_code, binop_code, block_code, body_scope, callee_code,
    captures_code, chain, closure_code, compound_code, expr_code, exprs_code, followed_by,
    followed_by_op, for_code, function_code, if_code, operands_code, ordered_or_equal_code,
    ref_code, ref_index_code, short_circuit_code, short_circuit_test, stmt_code, store_code,
    struct_code, typed_op, while_code, Lowered, Scope,
};
use crate::nodes::{Atom, Expr, Statement};
use crate::table::names;
use crate::tokens::{Numeric, Operator};

verus! {

/// The label id that an instruction names without placing it: the operand
/// of a jump, and the end of the body that `FUNCTION` or `CLOSURE` opens.
pub open spec fn target_of(op: SpecAsm) -> Option<usize> {
    match op {
        SpecAsm::JMP(l) => Some(l),
        SpecAsm::BJMP(l) => Some(l),
        SpecAsm::JUMPIFFALSE(l) => Some(l),
        SpecAsm::FUNCTION(l) => Some(l),
        SpecAsm::CLOSURE(l) => Some(l),
        _ => None,
    }
}

/// The exit labels of the enclosing loops, as a set.
pub open spec fn loop_exits(breaks: Seq<usize>) -> Set<usize> {
    Set::new(|l: usize| breaks.contains(l))
}

/// Every label that an instruction of `code` names stands in `code`,
/// unless it is one of `outer`.
pub open spec fn jumps_land(code: Seq<SpecAsm>, outer: Set<usize>) -> bool {
    forall|i: int|
        0 <= i < code.len() ==> (#[trigger] target_of(code[i]) matches Some(l) ==> count_label(
            code,
            l,
        ) >= 1 || outer.contains(l))
}

/// `r`, if it succeeded, is a list in which every jump lands, unless it
/// leaves for one of `outer`.
pub open spec fn lands(outer: Set<usize>, r: Lowered) -> bool {
    r matches Ok(out) ==> jumps_land(out.code, outer)
}

/// A label that stands somewhere is counted.
pub proof fn lemma_count_at(code: Seq<SpecAsm>, i: int, label: usize)
    requires
        0 <= i < code.len(),
        code[i] == SpecAsm::LABEL(label),
    ensures
        count_label(code, label) >= 1,
    decreases code.len(),
{
    if i < code.len() - 1 {
        assert(code.drop_last()[i] == code[i]);
        lemma_count_at(code.drop_last(), i, label);
    }
}

/// Jumps that land in two lists land in the two in a row.
pub proof fn lemma_land_concat(a: Seq<SpecAsm>, b: Seq<SpecAsm>, outer: Set<usize>)
    requires
        jumps_land(a, outer),
        jumps_land(b, outer),
    ensures
        jumps_land(a + b, outer),
{
    assert forall|i: int| 0 <= i < (a + b).len() implies (#[trigger] target_of((a + b)[i])
        matches Some(l) ==> count_label(a + b, l) >= 1 || outer.contains(l)) by {
        if let Some(l) = target_of((a + b)[i]) {
            lemma_count_concat(a, b, l);
            if i < a.len() {
                assert((a + b)[i] == a[i]);
                assert(target_of(a[i]) == Some(l));
            } else {
                assert((a + b)[i] == b[i - a.len()]);
                assert(target_of(b[i - a.len()]) == Some(l));
            }
        }
    }
}

/// Instructions that name only labels of `outer` land.
pub proof fn lemma_land_outside(code: Seq<SpecAsm>, outer: Set<usize>)
    requires
        forall|i: int|
            0 <= i < code.len() ==> (#[trigger] target_of(code[i]) matches Some(l)
                ==> outer.contains(l)),
    ensures
        jumps_land(code, outer),
{
}

/// What lands with fewer ways out lands with more.
pub proof fn lemma_land_wider(code: Seq<SpecAsm>, outer: Set<usize>, wider: Set<usize>)
    requires
        jumps_land(code, outer),
        outer.subset_of(wider),
    ensures
        jumps_land(code, wider),
{
    assert forall|i: int| 0 <= i < code.len() implies (#[trigger] target_of(code[i])
        matches Some(l) ==> count_label(code, l) >= 1 || wider.contains(l)) by {
        if let Some(l) = target_of(code[i]) {
            if outer.contains(l) {
                assert(wider.contains(l));
            }
        }
    }
}

/// Once a label stands in the list, it need not be a way out any more.
pub proof fn lemma_land_closed(
    code: Seq<SpecAsm>,
    outer: Set<usize>,
    label: usize,
    narrower: Set<usize>,
)
    requires
        jumps_land(code, outer),
        count_label(code, label) >= 1,
        outer.subset_of(narrower.insert(label)),
    ensures
        jumps_land(code, narrower),
{
    assert forall|i: int| 0 <= i < code.len() implies (#[trigger] target_of(code[i])
        matches Some(l) ==> count_label(code, l) >= 1 || narrower.contains(l)) by {
        if let Some(l) = target_of(code[i]) {
            if outer.contains(l) {
                assert(narrower.insert(label).contains(l));
            }
        }
    }
}

/// Two lowerings in a row land if each does.
pub proof fn lemma_lands_chain(outer: Set<usize>, a: Lowered, b: Lowered)
    requires
        lands(outer, a),
        lands(outer, b),
    ensures
        lands(outer, chain(a, b)),
{
    if let Ok(x) = a {
        if let Ok(y) = b {
            lemma_land_concat(x.code, y.code, outer);
        }
    }
}

/// Instructions after a lowering land if they name only labels of
/// `outer`.
pub proof fn lemma_lands_followed(outer: Set<usize>, a: Lowered, code: Seq<SpecAsm>)
    requires
        lands(outer, a),
        forall|i: int|
            0 <= i < code.len() ==> (#[trigger] target_of(code[i]) matches Some(l)
                ==> outer.contains(l)),
    ensures
        lands(outer, followed_by(a, code)),
{
    if let Ok(x) = a {
        lemma_land_outside(code, outer);
        lemma_land_concat(x.code, code, outer);
    }
}

/// A typed instruction after a lowering names no label.
pub proof fn lemma_lands_followed_op(outer: Set<usize>, a: Lowered, op: Operator, class: Numeric)
    requires
        lands(outer, a),
    ensures
        lands(outer, followed_by_op(a, typed_op(op, class))),
{
    if let Ok(x) = a {
        if let Ok(i) = typed_op(op, class) {
            lemma_land_outside(seq![i], outer);
            lemma_land_concat(x.code, seq![i], outer);
            assert(x.code.push(i) =~= x.code + seq![i]);
        }
    }
}

/// What lands with fewer ways out lands with more.
pub proof fn lemma_lands_wider(outer: Set<usize>, wider: Set<usize>, r: Lowered)
    requires
        lands(outer, r),
        outer.subset_of(wider),
    ensures
        lands(wider, r),
{
    if let Ok(x) = r {
        lemma_land_wider(x.code, outer, wider);
    }
}

/// A lowering whose last instruction is the label `label` needs that label
/// as a way out no more.
pub proof fn lemma_lands_closed(outer: Set<usize>, label: usize, narrower: Set<usize>, r: Lowered)
    requires
        lands(outer, r),
        r matches Ok(out) ==> out.code.len() > 0 && out.code.last() == SpecAsm::LABEL(label),
        outer.subset_of(narrower.insert(label)),
    ensures
        lands(narrower, r),
{
    if let Ok(x) = r {
        lemma_count_at(x.code, x.code.len() - 1, label);
        lemma_land_closed(x.code, outer, label, narrower);
    }
}

/// A lowering that names no label at all lands anywhere.
pub proof fn lemma_lands_plain(outer: Set<usize>, r: Lowered)
    requires
        r matches Ok(out) ==> forall|i: int|
            0 <= i < out.code.len() ==> (#[trigger] target_of(out.code[i]) is None),
    ensures
        lands(outer, r),
{
}

/// The exits of a loop's inside are those of its outside and its own.
pub proof fn lemma_exits_in_loop(breaks: Seq<usize>, end: usize)
    ensures
        loop_exits(breaks.push(end)) == loop_exits(breaks).insert(end),
{
    assert forall|l: usize| loop_exits(breaks.push(end)).contains(l) == loop_exits(
        breaks,
    ).insert(end).contains(l) by {
        if breaks.push(end).contains(l) {
            let i = choose|i: int| 0 <= i < breaks.push(end).len() && breaks.push(end)[i] == l;
            if i < breaks.len() {
                assert(breaks[i] == l);
            }
        }
        if breaks.contains(l) {
            let i = choose|i: int| 0 <= i < breaks.len() && breaks[i] == l;
            assert(breaks.push(end)[i] == l);
        }
        if l == end {
            assert(breaks.push(end)[breaks.len() as int] == l);
        }
    }
    assert(loop_exits(breaks.push(end)) =~= loop_exits(breaks).insert(end));
}

/// Whether no instruction of the list names a label.
pub open spec fn names_no_label(code: Seq<SpecAsm>) -> bool {
    forall|i: int| 0 <= i < code.len() ==> (#[trigger] target_of(code[i]) is None)
}

/// An assignment target names no label.
pub proof fn lemma_ref_names_none(sc: Scope, e: Expr)
    ensures
        ref_code(sc, e) matches Ok(out) ==> names_no_label(out.code),
    decreases e,
{
    match e {
        Expr::Field(_, _, index, base) => {
            lemma_ref_names_none(sc, *base);
            if let Ok(b) = ref_code(sc, *base) {
                if index <= i64::MAX {
                    let code = ref_code(sc, e).unwrap().code;
                    assert(code =~= seq![SpecAsm::INTEGER(index as i64)] + b.code + seq![
                        SpecAsm::PIN,
                    ]);
                    assert forall|i: int| 0 <= i < code.len() implies (#[trigger] target_of(
                        code[i],
                    ) is None) by {
                        if 1 <= i < 1 + b.code.len() {
                            assert(code[i] == b.code[i - 1]);
                        }
                    }
                }
            }
        },
        Expr::Indexed(_, _, index, base) => {
            lemma_ref_names_none(sc, *base);
            if let Ok(b) = ref_code(sc, *base) {
                if let Ok(x) = ref_index_code(sc, *index) {
                    let code = ref_code(sc, e).unwrap().code;
                    assert(x.code.len() == 1);
                    assert(code =~= x.code + b.code + seq![SpecAsm::PIN]);
                    assert forall|i: int| 0 <= i < code.len() implies (#[trigger] target_of(
                        code[i],
                    ) is None) by {
                        if 1 <= i < 1 + b.code.len() {
                            assert(code[i] == b.code[i - 1]);
                        }
                    }
                }
            }
        },
        _ => {},
    }
}

/// Fetching captured names names no label.
pub proof fn lemma_captures_name_none(sc: Scope, captured: Seq<String>, n: nat)
    ensures
        captures_code(sc, captured, n) matches Ok(out) ==> names_no_label(out.code),
    decreases n,
{
    if !(n == 0 || n > captured.len()) {
        lemma_captures_name_none(sc, captured, (n - 1) as nat);
    }
}

/// In an expression every jump lands, unless it leaves an enclosing loop.
pub proof fn lemma_expr_lands(sc: Scope, e: Expr)
    ensures
        lands(loop_exits(sc.breaks), expr_code(sc, e)),
    decreases e, 2nat,
{
    let o = loop_exits(sc.breaks);
    match e {
        Expr::Empty => {},
        Expr::ListConstructor(_, list) => {
            lemma_exprs_lands(sc, list@, list@.len());
            lemma_lands_followed(
                o,
                exprs_code(sc, list@, list@.len()),
                seq![SpecAsm::LIST(list@.len() as usize)],
            );
        },
        Expr::Field(_, _, index, base) => {
            let first = sc.emit(seq![SpecAsm::INTEGER(index as i64)]);
            let b = expr_code(sc, *base);
            lemma_expr_lands(sc, *base);
            lemma_lands_plain(o, first);
            lemma_lands_chain(o, first, b);
            lemma_lands_followed(o, chain(first, b), seq![SpecAsm::LIN]);
        },
        Expr::Indexed(_, _, index, base) => {
            let i = expr_code(sc, *index);
            let b = expr_code(sc.after(i), *base);
            lemma_expr_lands(sc, *index);
            lemma_expr_lands(sc.after(i), *base);
            lemma_lands_chain(o, i, b);
            lemma_lands_followed(o, chain(i, b), seq![SpecAsm::LIN]);
        },
        Expr::Call(_, _, callee, args) => {
            let a = exprs_code(sc, args@, args@.len());
            let c = ref_code(sc.after(a), *callee);
            lemma_exprs_lands(sc, args@, args@.len());
            lemma_ref_names_none(sc.after(a), *callee);
            lemma_lands_plain(o, c);
            lemma_lands_chain(o, a, c);
            lemma_lands_followed(o, chain(a, c), seq![SpecAsm::CALL]);
        },
        Expr::Unary(_, _, operand) => {
            lemma_expr_lands(sc, *operand);
            lemma_lands_followed(o, expr_code(sc, *operand), seq![SpecAsm::NEG]);
            lemma_lands_followed(o, expr_code(sc, *operand), seq![SpecAsm::NOT]);
        },
        Expr::Binop(_, _, _, _) => {
            lemma_binop_lands(sc, e);
        },
        Expr::Literal(_, atom) => {
            lemma_atom_lands(sc, atom);
        },
        Expr::Closure(_, _, _, _) => {
            lemma_closure_lands(sc, e);
        },
    }
}

/// In a list of expressions every jump lands, unless it leaves an
/// enclosing loop.
pub proof fn lemma_exprs_lands(sc: Scope, list: Seq<Expr>, n: nat)
    ensures
        lands(loop_exits(sc.breaks), exprs_code(sc, list, n)),
    decreases list, n,
{
    if !(n == 0 || n > list.len()) {
        let front = exprs_code(sc, list, (n - 1) as nat);
        lemma_exprs_lands(sc, list, (n - 1) as nat);
        lemma_expr_lands(sc.after(front), list[n - 1]);
        lemma_lands_chain(
            loop_exits(sc.breaks),
            front,
            expr_code(sc.after(front), list[n - 1]),
        );
    }
}

/// In an atom every jump lands, unless it leaves an enclosing loop.
pub proof fn lemma_atom_lands(sc: Scope, atom: Atom)
    ensures
        lands(loop_exits(sc.breaks), atom_code(sc, atom)),
    decreases atom, 0nat,
{
    match atom {
        Atom::Call(name, args) => {
            let a = exprs_code(sc, args@, args@.len());
            lemma_exprs_lands(sc, args@, args@.len());
            lemma_lands_plain(loop_exits(sc.breaks), callee_code(sc.after(a), name@));
            lemma_lands_chain(loop_exits(sc.breaks), a, callee_code(sc.after(a), name@));
        },
        _ => {},
    }
}

/// In an infix operation every jump lands, unless it leaves an enclosing
/// loop.
pub proof fn lemma_binop_lands(sc: Scope, e: Expr)
    ensures
        lands(loop_exits(sc.breaks), binop_code(sc, e)),
    decreases e, 1nat,
{
    if e is Binop {
        lemma_operands_lands(sc, e);
        lemma_assignment_lands(sc, e);
        lemma_compound_lands(sc, e);
        lemma_ordered_or_equal_lands(sc, e);
        lemma_short_circuit_lands(sc, e);
    }
}

/// In an operator on two values every jump lands.
pub proof fn lemma_operands_lands(sc: Scope, e: Expr)
    ensures
        lands(loop_exits(sc.breaks), operands_code(sc, e)),
    decreases e, 0nat,
{
    let o = loop_exits(sc.breaks);
    match e {
        Expr::Binop(_, op, lhs, rhs) => {
            let l = expr_code(sc, *lhs);
            let r = expr_code(sc.after(l), *rhs);
            lemma_expr_lands(sc, *lhs);
            lemma_expr_lands(sc.after(l), *rhs);
            lemma_lands_chain(o, l, r);
            lemma_lands_followed(o, chain(l, r), seq![SpecAsm::EQUALS]);
            lemma_lands_followed(o, chain(l, r), seq![SpecAsm::EQUALS, SpecAsm::NOT]);
            lemma_lands_followed(o, chain(l, r), seq![SpecAsm::NOT]);
            lemma_lands_followed_op(o, chain(l, r), op, lhs.numeric());
        },
        _ => {},
    }
}

/// In an assignment every jump lands.
pub proof fn lemma_assignment_lands(sc: Scope, e: Expr)
    ensures
        lands(loop_exits(sc.breaks), assignment_code(sc, e)),
    decreases e, 0nat,
{
    let o = loop_exits(sc.breaks);
    match e {
        Expr::Binop(_, _, lhs, rhs) => {
            let r = expr_code(sc, *rhs);
            let t = ref_code(sc.after(r), *lhs);
            lemma_expr_lands(sc, *rhs);
            lemma_ref_names_none(sc.after(r), *lhs);
            lemma_lands_plain(o, t);
            lemma_lands_chain(o, r, t);
            lemma_lands_followed(o, chain(r, t), seq![SpecAsm::ASSIGN]);
        },
        _ => {},
    }
}

/// In a compound assignment every jump lands.
pub proof fn lemma_compound_lands(sc: Scope, e: Expr)
    ensures
        lands(loop_exits(sc.breaks), compound_code(sc, e)),
    decreases e, 0nat,
{
    let o = loop_exits(sc.breaks);
    match e {
        Expr::Binop(_, op, lhs, rhs) => {
            let r = expr_code(sc, *rhs);
            let l = expr_code(sc.after(r), *lhs);
            lemma_expr_lands(sc, *rhs);
            lemma_expr_lands(sc.after(r), *lhs);
            lemma_lands_chain(o, r, l);
            let value = followed_by_op(chain(r, l), typed_op(op, lhs.numeric()));
            lemma_lands_followed_op(o, chain(r, l), op, lhs.numeric());
            let t = ref_code(sc.after(value), *lhs);
            lemma_ref_names_none(sc.after(value), *lhs);
            lemma_lands_plain(o, t);
            lemma_lands_chain(o, value, t);
            lemma_lands_followed(o, chain(value, t), seq![SpecAsm::ASSIGN]);
        },
        _ => {},
    }
}

/// In `>=` and `<=` every jump lands: their own on their own label.
pub proof fn lemma_ordered_or_equal_lands(sc: Scope, e: Expr)
    ensures
        lands(loop_exits(sc.breaks), ordered_or_equal_code(sc, e)),
    decreases e, 0nat,
{
    let o = loop_exits(sc.breaks);
    match e {
        Expr::Binop(_, op, lhs, rhs) => {
            if sc.has_labels(1) {
                let label = sc.next;
                let w = o.insert(label);
                let l = expr_code(sc.skip_labels(1), *lhs);
                let r = expr_code(sc.after(l), *rhs);
                lemma_expr_lands(sc.skip_labels(1), *lhs);
                lemma_expr_lands(sc.after(l), *rhs);
                lemma_lands_chain(o, l, r);
                let strict = followed_by_op(chain(l, r), typed_op(op, lhs.numeric()));
                lemma_lands_followed_op(o, chain(l, r), op, lhs.numeric());
                lemma_lands_wider(o, w, strict);
                let test = seq![
                    SpecAsm::DUP,
                    SpecAsm::NOT,
                    SpecAsm::JUMPIFFALSE(label),
                    SpecAsm::POP,
                ];
                lemma_lands_followed(w, strict, test);
                let l2 = expr_code(sc.after(strict), *lhs);
                let r2 = expr_code(sc.after(l2), *rhs);
                lemma_expr_lands(sc.after(strict), *lhs);
                lemma_expr_lands(sc.after(l2), *rhs);
                lemma_lands_chain(o, l2, r2);
                lemma_lands_wider(o, w, chain(l2, r2));
                lemma_lands_chain(w, followed_by(strict, test), chain(l2, r2));
                let all = chain(followed_by(strict, test), chain(l2, r2));
                lemma_lands_followed(w, all, seq![SpecAsm::EQUALS, SpecAsm::LABEL(label)]);
                lemma_lands_closed(
                    w,
                    label,
                    o,
                    followed_by(all, seq![SpecAsm::EQUALS, SpecAsm::LABEL(label)]),
                );
            }
        },
        _ => {},
    }
}

/// In `&&` and `||` every jump lands: their own on their own label.
pub proof fn lemma_short_circuit_lands(sc: Scope, e: Expr)
    ensures
        lands(loop_exits(sc.breaks), short_circuit_code(sc, e)),
    decreases e, 0nat,
{
    let o = loop_exits(sc.breaks);
    match e {
        Expr::Binop(_, op, lhs, rhs) => {
            if sc.has_labels(1) {
                let label = sc.next;
                let w = o.insert(label);
                let l = expr_code(sc.skip_labels(1), *lhs);
                let r = expr_code(sc.after(l), *rhs);
                lemma_expr_lands(sc.skip_labels(1), *lhs);
                lemma_expr_lands(sc.after(l), *rhs);
                lemma_lands_wider(o, w, l);
                lemma_lands_wider(o, w, r);
                let test = short_circuit_test(op, label);
                lemma_lands_followed(w, l, test);
                lemma_lands_chain(w, followed_by(l, test), r);
                let all = chain(followed_by(l, test), r);
                lemma_lands_followed(w, all, seq![SpecAsm::LABEL(label)]);
                lemma_lands_closed(w, label, o, followed_by(all, seq![SpecAsm::LABEL(label)]));
            }
        },
        _ => {},
    }
}

/// A body between the instructions that open it and its label lands: the
/// opening instruction names the label that closes the body.
pub proof fn lemma_body_lands(
    head: Seq<SpecAsm>,
    body: Seq<SpecAsm>,
    label: usize,
    outer: Set<usize>,
)
    requires
        jumps_land(body, outer),
        forall|i: int|
            0 <= i < head.len() ==> (#[trigger] target_of(head[i]) matches Some(l) ==> l
                == label),
    ensures
        jumps_land(head + body + seq![SpecAsm::LABEL(label)], outer),
{
    let w = outer.insert(label);
    let last = seq![SpecAsm::LABEL(label)];
    lemma_land_outside(head, w);
    lemma_land_wider(body, outer, w);
    lemma_land_outside(last, w);
    lemma_land_concat(head, body, w);
    lemma_land_concat(head + body, last, w);
    let whole = head + body + last;
    lemma_count_at(whole, whole.len() - 1, label);
    lemma_land_closed(whole, w, label, outer);
}

/// In a closure every jump lands; the closure names the label after its
/// body.
pub proof fn lemma_closure_lands(sc: Scope, e: Expr)
    ensures
        lands(loop_exits(sc.breaks), closure_code(sc, e)),
    decreases e, 0nat,
{
    match e {
        Expr::Closure(_, params, body, captured) => {
            lemma_captures_name_none(sc, captured@, captured@.len());
            if sc.has_labels(1) {
                let seeded = arg_names(params@) + names(captured@);
                let inner = body_scope(sc, seeded);
                lemma_block_lands(inner, body@, body@.len());
                if let Ok(out) = closure_code(sc, e) {
                    let f = captures_code(sc, captured@, captured@.len()).unwrap();
                    let b = block_code(inner, body@, body@.len()).unwrap();
                    let head = f.code + seq![
                        SpecAsm::LIST(captured@.len() as usize),
                        SpecAsm::CLOSURE(sc.next),
                        SpecAsm::OFFSET(
                            seeded.len() as u32,
                            (b.locals.len() - seeded.len()) as u32,
                        ),
                    ];
                    assert(out.code =~= head + b.code + seq![SpecAsm::LABEL(sc.next)]);
                    assert forall|i: int| 0 <= i < head.len() implies (#[trigger] target_of(
                        head[i],
                    ) matches Some(l) ==> l == sc.next) by {
                        if i < f.code.len() {
                            assert(head[i] == f.code[i]);
                        }
                    }
                    lemma_body_lands(head, b.code, sc.next, loop_exits(sc.breaks));
                }
            }
        },
        _ => {},
    }
}

/// In a statement every jump lands, unless it leaves an enclosing loop.
pub proof fn lemma_stmt_lands(sc: Scope, s: Statement)
    ensures
        lands(loop_exits(sc.breaks), stmt_code(sc, s)),
    decreases s, 1nat,
{
    let o = loop_exits(sc.breaks);
    match s {
        Statement::Pass => {},
        Statement::Let(_, name, init) => {
            let v = expr_code(sc, init);
            lemma_expr_lands(sc, init);
            lemma_lands_plain(o, store_code(sc.after(v), name@));
            lemma_lands_chain(o, v, store_code(sc.after(v), name@));
        },
        Statement::Function(_, _, _, _) => {
            lemma_function_lands(sc, s);
        },
        Statement::Struct(_, name, fields) => {
            lemma_struct_lands(sc, name@, fields@.len());
        },
        Statement::Return(_, value, _, _) => {
            lemma_expr_lands(sc, value);
            lemma_lands_followed(o, expr_code(sc, value), seq![SpecAsm::RET(true)]);
            lemma_lands_followed(o, expr_code(sc, value), seq![SpecAsm::RET(false)]);
        },
        Statement::Expression(_, e) => {
            lemma_expr_lands(sc, e);
        },
        Statement::If(_, _, _, _) => {
            lemma_if_lands(sc, s);
        },
        Statement::While(_, _) => {
            lemma_while_lands(sc, s);
        },
        Statement::For(_, _, _, _) => {
            lemma_for_lands(sc, s);
        },
        Statement::Break => {
            if sc.breaks.len() > 0 {
                assert(sc.breaks.contains(sc.breaks.last())) by {
                    assert(sc.breaks[sc.breaks.len() - 1] == sc.breaks.last());
                }
                lemma_land_outside(seq![SpecAsm::JMP(sc.breaks.last())], o);
            }
        },
        Statement::Continue => {},
        Statement::Block(body) => {
            lemma_block_lands(sc, body@, body@.len());
        },
    }
}

/// A struct declaration names the label that it places.
pub proof fn lemma_struct_lands(sc: Scope, name: Seq<char>, fields: nat)
    ensures
        lands(loop_exits(sc.breaks), struct_code(sc, name, fields)),
{
    if let Ok(out) = struct_code(sc, name, fields) {
        let head = seq![
            SpecAsm::FUNCTION(sc.next),
            SpecAsm::OFFSET((fields - 1) as u32, 0),
            SpecAsm::STRING(name),
            SpecAsm::LIST(fields as usize),
            SpecAsm::RET(true),
        ];
        let stored = seq![SpecAsm::STOREGLOBAL(sc.globals.len() as u32)];
        let o = loop_exits(sc.breaks);
        lemma_land_outside(Seq::empty(), o);
        lemma_body_lands(head, Seq::empty(), sc.next, o);
        lemma_land_outside(stored, o);
        lemma_land_concat(head + Seq::empty() + seq![SpecAsm::LABEL(sc.next)], stored, o);
        assert(out.code =~= head + Seq::empty() + seq![SpecAsm::LABEL(sc.next)] + stored);
    }
}

/// In a function declaration every jump lands; the declaration names the
/// label after its body.
pub proof fn lemma_function_lands(sc: Scope, s: Statement)
    ensures
        lands(loop_exits(sc.breaks), function_code(sc, s)),
    decreases s, 0nat,
{
    match s {
        Statement::Function(_, name, params, body) => {
            if sc.has_labels(1) {
                let declared = Scope { globals: sc.globals.push(name@), ..sc };
                let inner = body_scope(declared, arg_names(params@));
                lemma_block_lands(inner, body@, body@.len());
                if let Ok(out) = function_code(sc, s) {
                    let o = loop_exits(sc.breaks);
                    let b = block_code(inner, body@, body@.len()).unwrap();
                    let head = seq![
                        SpecAsm::FUNCTION(sc.next),
                        SpecAsm::OFFSET(
                            params@.len() as u32,
                            (b.locals.len() - params@.len()) as u32,
                        ),
                    ];
                    let stored = seq![SpecAsm::STOREGLOBAL(sc.globals.len() as u32)];
                    lemma_body_lands(head, b.code, sc.next, o);
                    lemma_land_outside(stored, o);
                    lemma_land_concat(head + b.code + seq![SpecAsm::LABEL(sc.next)], stored, o);
                    assert(out.code =~= head + b.code + seq![SpecAsm::LABEL(sc.next)] + stored);
                }
            }
        },
        _ => {},
    }
}

/// In a conditional every jump lands: its own two on its own two labels.
pub proof fn lemma_if_lands(sc: Scope, s: Statement)
    ensures
        lands(loop_exits(sc.breaks), if_code(sc, s)),
    decreases s, 0nat,
{
    let o = loop_exits(sc.breaks);
    match s {
        Statement::If(_, test, body, alternative) => {
            if sc.has_labels(2) {
                let otherwise = sc.next;
                let end = (sc.next + 1) as usize;
                let t = expr_code(sc.skip_labels(2), test);
                let b = block_code(sc.after(t), body@, body@.len());
                let jumped = followed_by(t, seq![SpecAsm::JUMPIFFALSE(otherwise)]);
                let taken = chain(jumped, b);
                lemma_expr_lands(sc.skip_labels(2), test);
                lemma_block_lands(sc.after(t), body@, body@.len());
                match alternative {
                    None => {
                        let w = o.insert(otherwise);
                        lemma_lands_wider(o, w, t);
                        lemma_lands_wider(o, w, b);
                        lemma_lands_followed(w, t, seq![SpecAsm::JUMPIFFALSE(otherwise)]);
                        lemma_lands_chain(w, jumped, b);
                        lemma_lands_followed(w, taken, seq![SpecAsm::LABEL(otherwise)]);
                        lemma_lands_closed(
                            w,
                            otherwise,
                            o,
                            followed_by(taken, seq![SpecAsm::LABEL(otherwise)]),
                        );
                    },
                    Some(alt) => {
                        let we = o.insert(end);
                        let w = we.insert(otherwise);
                        let a = block_code(sc.after(taken), alt@, alt@.len());
                        lemma_block_lands(sc.after(taken), alt@, alt@.len());
                        lemma_lands_wider(o, w, t);
                        lemma_lands_wider(o, w, b);
                        lemma_lands_wider(o, we, a);
                        lemma_lands_followed(w, t, seq![SpecAsm::JUMPIFFALSE(otherwise)]);
                        lemma_lands_chain(w, jumped, b);
                        let middle = followed_by(
                            taken,
                            seq![SpecAsm::JMP(end), SpecAsm::LABEL(otherwise)],
                        );
                        lemma_lands_followed(
                            w,
                            taken,
                            seq![SpecAsm::JMP(end), SpecAsm::LABEL(otherwise)],
                        );
                        lemma_lands_closed(w, otherwise, we, middle);
                        lemma_lands_chain(we, middle, a);
                        lemma_lands_followed(we, chain(middle, a), seq![SpecAsm::LABEL(end)]);
                        lemma_lands_closed(
                            we,
                            end,
                            o,
                            followed_by(chain(middle, a), seq![SpecAsm::LABEL(end)]),
                        );
                    },
                }
            }
        },
        _ => {},
    }
}

/// A loop whose parts land with the loop's end as one more way out lands
/// once its top label stands at `at` and its end label at the end.
proof fn lemma_loop_lands(
    outer: Set<usize>,
    top: usize,
    end: usize,
    at: int,
    r: Lowered,
)
    requires
        lands(outer.insert(end).insert(top), r),
        r matches Ok(out) ==> {
            &&& 0 <= at < out.code.len()
            &&& out.code[at] == SpecAsm::LABEL(top)
            &&& out.code.last() == SpecAsm::LABEL(end)
        },
    ensures
        lands(outer, r),
{
    if let Ok(out) = r {
        let w = outer.insert(end).insert(top);
        lemma_count_at(out.code, at, top);
        lemma_land_closed(out.code, w, top, outer.insert(end));
        lemma_count_at(out.code, out.code.len() - 1, end);
        lemma_land_closed(out.code, outer.insert(end), end, outer);
    }
}

/// In a while loop every jump lands: its own two on its own two labels,
/// and every `break` of its body on its end.
pub proof fn lemma_while_lands(sc: Scope, s: Statement)
    ensures
        lands(loop_exits(sc.breaks), while_code(sc, s)),
    decreases s, 0nat,
{
    let o = loop_exits(sc.breaks);
    match s {
        Statement::While(test, body) => {
            if sc.has_labels(2) {
                let top = sc.next;
                let end = (sc.next + 1) as usize;
                let inner = sc.skip_labels(2).in_loop(end);
                let w = o.insert(end).insert(top);
                let t = expr_code(inner, test);
                let b = block_code(inner.after(t), body@, body@.len());
                let head = sc.emit(seq![SpecAsm::LABEL(top)]);
                lemma_exits_in_loop(sc.breaks, end);
                lemma_expr_lands(inner, test);
                lemma_block_lands(inner.after(t), body@, body@.len());
                lemma_lands_wider(o.insert(end), w, t);
                lemma_lands_wider(o.insert(end), w, b);
                lemma_lands_plain(w, head);
                lemma_lands_chain(w, head, t);
                lemma_lands_followed(w, chain(head, t), seq![SpecAsm::JUMPIFFALSE(end)]);
                let tested = followed_by(chain(head, t), seq![SpecAsm::JUMPIFFALSE(end)]);
                lemma_lands_chain(w, tested, b);
                lemma_lands_followed(
                    w,
                    chain(tested, b),
                    seq![SpecAsm::BJMP(top), SpecAsm::LABEL(end)],
                );
                lemma_loop_lands(o, top, end, 0, while_code(sc, s));
            }
        },
        _ => {},
    }
}

/// In a for loop every jump lands: its own two on its own two labels, and
/// every `break` of its body on its end.
pub proof fn lemma_for_lands(sc: Scope, s: Statement)
    ensures
        lands(loop_exits(sc.breaks), for_code(sc, s)),
    decreases s, 0nat,
{
    let o = loop_exits(sc.breaks);
    match s {
        Statement::For(init, test, step, body) => {
            if sc.has_labels(2) {
                let top = sc.next;
                let end = (sc.next + 1) as usize;
                let inner = sc.skip_labels(2).in_loop(end);
                let w = o.insert(end).insert(top);
                let i = expr_code(inner, init);
                let t = expr_code(inner.after(i), test);
                let b = block_code(inner.after(t), body@, body@.len());
                let n = expr_code(inner.after(b), step);
                lemma_exits_in_loop(sc.breaks, end);
                lemma_expr_lands(inner, init);
                lemma_expr_lands(inner.after(i), test);
                lemma_block_lands(inner.after(t), body@, body@.len());
                lemma_expr_lands(inner.after(b), step);
                lemma_lands_wider(o.insert(end), w, i);
                lemma_lands_wider(o.insert(end), w, t);
                lemma_lands_wider(o.insert(end), w, b);
                lemma_lands_wider(o.insert(end), w, n);
                lemma_lands_followed(w, i, seq![SpecAsm::LABEL(top)]);
                let started = followed_by(i, seq![SpecAsm::LABEL(top)]);
                lemma_lands_chain(w, started, t);
                lemma_lands_followed(w, chain(started, t), seq![SpecAsm::JUMPIFFALSE(end)]);
                let tested = followed_by(chain(started, t), seq![SpecAsm::JUMPIFFALSE(end)]);
                lemma_lands_chain(w, tested, b);
                lemma_lands_chain(w, chain(tested, b), n);
                lemma_lands_followed(
                    w,
                    chain(chain(tested, b), n),
                    seq![SpecAsm::BJMP(top), SpecAsm::LABEL(end)],
                );
                if let Ok(out) = for_code(sc, s) {
                    let at = i.unwrap().code.len() as int;
                    assert(started.unwrap().code[at] == SpecAsm::LABEL(top));
                    assert(out.code[at] == SpecAsm::LABEL(top));
                }
                lemma_loop_lands(o, top, end, i.unwrap().code.len() as int, for_code(sc, s));
            }
        },
        _ => {},
    }
}

/// In a block every jump lands, unless it leaves an enclosing loop.
pub proof fn lemma_block_lands(sc: Scope, block: Seq<Statement>, n: nat)
    ensures
        lands(loop_exits(sc.breaks), block_code(sc, block, n)),
    decreases block, n,
{
    if !(n == 0 || n > block.len()) {
        let front = block_code(sc, block, (n - 1) as nat);
        lemma_block_lands(sc, block, (n - 1) as nat);
        lemma_stmt_lands(sc.after(front), block[n - 1]);
        lemma_lands_chain(
            loop_exits(sc.breaks),
            front,
            stmt_code(sc.after(front), block[n - 1]),
        );
    }
}

/// Every label id that the list places or names is below `bound`.
pub open spec fn ids_below(code: Seq<SpecAsm>, bound: int) -> bool {
    forall|i: int|
        0 <= i < code.len() ==> {
            &&& (#[trigger] code[i]) matches SpecAsm::LABEL(l) ==> l < bound
            &&& target_of(code[i]) matches Some(l) ==> l < bound
        }
}

/// No instruction of the list places or names the label id `label`.
pub open spec fn never_mentions(code: Seq<SpecAsm>, label: usize) -> bool {
    forall|i: int|
        0 <= i < code.len() ==> (#[trigger] code[i]) != SpecAsm::LABEL(label) && target_of(
            code[i],
        ) != Some(label)
}

/// What a lowering placed freshly and made land places and names only
/// ids below its last label counter, and nothing below its first but
/// loop exits.
pub proof fn lemma_ids_of_lowered(sc: Scope, code: Seq<SpecAsm>, next: usize)
    requires
        sc.next <= next,
        labels_once(code, sc.next as int, next as int),
        jumps_land(code, loop_exits(sc.breaks)),
        forall|i: int| 0 <= i < sc.breaks.len() ==> sc.breaks[i] < sc.next,
    ensures
        ids_below(code, next as int),
        forall|i: int|
            0 <= i < code.len() ==> {
                &&& (#[trigger] code[i]) matches SpecAsm::LABEL(l) ==> sc.next <= l
                &&& target_of(code[i]) matches Some(l) ==> sc.next <= l || sc.breaks.contains(l)
            },
{
    assert forall|i: int| 0 <= i < code.len() implies {
        &&& (#[trigger] code[i]) matches SpecAsm::LABEL(l) ==> sc.next <= l < next
        &&& target_of(code[i]) matches Some(l) ==> (sc.next <= l < next) || (sc.breaks.contains(l)
            && l < next)
    } by {
        if let SpecAsm::LABEL(l) = code[i] {
            lemma_count_at(code, i, l);
            assert(count_label(code, l) <= at_most(sc.next as int, next as int, l));
        }
        if let Some(l) = target_of(code[i]) {
            assert(count_label(code, l) <= at_most(sc.next as int, next as int, l));
            if sc.breaks.contains(l) {
                let k = choose|k: int| 0 <= k < sc.breaks.len() && sc.breaks[k] == l;
                assert(sc.breaks[k] < sc.next);
            }
        }
    }
}

} // verus!
