//! Laws of the lowering scheme and of the stack discipline of its output.

use vstd::prelude::*;
use crate::code::SpecAsm;
use crate::effect::{expr_effect, lemma_block_nets, lemma_expr_nets, lemma_stmt_nets, stmt_effect};
use crate::error::ErrorKind;
use crate::frame::lemma_block_frame;
use crate::fresh::{
    at_most, count_label, labels_once, lemma_block_fresh, lemma_count_concat, lemma_count_plain,
    lemma_expr_fresh,
};
use crate::lowering::{
    arg_names, atom_code, binop_code, block_code, body_scope, captures_code, closure_code,
    expr_code, fits_slot, frame_header, program_code, short_circuit_code, short_circuit_test,
    stmt_code, Emitted, Scope,
};
use crate::nodes::{Arg, Atom, Expr, Statement};
use crate::shape::{
    all_balanced, is_balanced, is_value, lemma_balanced_effect, lemma_block_balanced_effect,
    lemma_value_effect,
};
use crate::stack::{lemma_net_concat, lemma_net_push, net_effect};
use crate::table::{lookup, names};
use crate::targets::{
    ids_below, lemma_block_lands, lemma_expr_lands, lemma_ids_of_lowered, lemma_land_concat,
    lemma_land_outside, lemma_land_wider, loop_exits, never_mentions, target_of,
};
use crate::tokens::{Operator, TType};

verus! {

/// An integer literal lowers, in every scope, to exactly one instruction:
/// the push of that integer. Nothing else is emitted and the scope is left
/// as it was.
pub proof fn integer_literal_is_one_push(sc: Scope, t: TType, n: i64)
    ensures
        expr_code(sc, Expr::Literal(t, Atom::Integer(n))) == sc.emit(seq![SpecAsm::INTEGER(n)]),
        atom_code(sc, Atom::Integer(n)) == sc.emit(seq![SpecAsm::INTEGER(n)]),
{
}

/// `a && b` lowers to the instructions of `a`, then `DUP`, a jump to a
/// fresh label `L` if the value is false, `POP`, the instructions of `b`,
/// and the label `L`. So no instruction of `b` stands before one of `a`,
/// and `b` is skipped when `a` is false. `L` is the first label id that
/// was unused before; `a` and `b` take theirs after it.
pub proof fn and_is_left_then_guarded_right(sc: Scope, t: TType, a: Expr, b: Expr)
    requires
        expr_code(sc, Expr::Binop(t, Operator::And, Box::new(a), Box::new(b))) is Ok,
    ensures
        ({
            let label = sc.next;
            let left = expr_code(sc.skip_labels(1), a);
            let right = expr_code(sc.after(left), b);
            &&& sc.has_labels(1)
            &&& left is Ok
            &&& right is Ok
            &&& expr_code(
                sc,
                Expr::Binop(t, Operator::And, Box::new(a), Box::new(b)),
            ).unwrap().code == left.unwrap().code + seq![
                SpecAsm::DUP,
                SpecAsm::JUMPIFFALSE(label),
                SpecAsm::POP,
            ] + right.unwrap().code + seq![SpecAsm::LABEL(label)]
        }),
{
    let e = Expr::Binop(t, Operator::And, Box::new(a), Box::new(b));
    let left = expr_code(sc.skip_labels(1), a);
    let right = expr_code(sc.after(left), b);
    assert(expr_code(sc, e) == binop_code(sc, e));
    assert(binop_code(sc, e) == short_circuit_code(sc, e));
    assert(short_circuit_test(Operator::And, sc.next) == seq![
        SpecAsm::DUP,
        SpecAsm::JUMPIFFALSE(sc.next),
        SpecAsm::POP,
    ]);
}

/// `break` lowers to a jump to the exit of the innermost enclosing loop,
/// and outside of every loop it is refused as `BreakOutsideLoop`.
pub proof fn break_needs_a_loop(sc: Scope)
    ensures
        sc.breaks.len() == 0 ==> stmt_code(sc, Statement::Break) == Err::<Emitted, ErrorKind>(
            ErrorKind::BreakOutsideLoop,
        ),
        sc.breaks.len() > 0 ==> stmt_code(sc, Statement::Break) == sc.emit(
            seq![SpecAsm::JMP(sc.breaks.last())],
        ),
{
}

/// The fetch of `n` captured names is `n` instructions, the `i`-th of
/// which fetches the local that the `i`-th name resolves to.
pub proof fn captures_are_fetched_in_order(sc: Scope, captured: Seq<String>, n: nat)
    requires
        n <= captured.len(),
        captures_code(sc, captured, n) is Ok,
    ensures
        captures_code(sc, captured, n).unwrap().code.len() == n,
        forall|i: int|
            0 <= i < n ==> (#[trigger] lookup(sc.locals, captured[i]@) matches Some(slot)
                && fits_slot(slot) && captures_code(sc, captured, n).unwrap().code[i]
                == SpecAsm::GET(slot as u32)),
    decreases n,
{
    if n > 0 {
        captures_are_fetched_in_order(sc, captured, (n - 1) as nat);
    }
}

/// A closure fetches its captured names from the enclosing locals in
/// declaration order, bundles them into a list and makes the closure; its
/// body is lowered in a scope whose locals are exactly the parameters
/// followed by the captured names, and keeps them in those slots.
pub proof fn closure_capture_layout(
    sc: Scope,
    t: TType,
    params: Vec<Arg>,
    body: Vec<Statement>,
    captured: Vec<String>,
)
    requires
        expr_code(sc, Expr::Closure(t, params, body, captured)) is Ok,
    ensures
        ({
            let out = expr_code(sc, Expr::Closure(t, params, body, captured)).unwrap();
            let n = captured@.len() as int;
            let seeded = arg_names(params@) + names(captured@);
            let inner = body_scope(sc, seeded);
            &&& out.code.len() >= n + 4
            &&& forall|i: int|
                0 <= i < n ==> (#[trigger] lookup(sc.locals, captured@[i]@) matches Some(slot)
                    && fits_slot(slot) && out.code[i] == SpecAsm::GET(slot as u32))
            &&& out.code[n] == SpecAsm::LIST(n as usize)
            &&& out.code[n + 1] == SpecAsm::CLOSURE(sc.next)
            &&& inner.locals == seeded
            &&& block_code(inner, body@, body@.len()) matches Ok(b) && {
                &&& seeded.is_prefix_of(b.locals)
                &&& out.code[n + 2] == SpecAsm::OFFSET(
                    seeded.len() as u32,
                    (b.locals.len() - seeded.len()) as u32,
                )
                &&& out.code.subrange(n + 3, out.code.len() - 1) == b.code
                &&& out.code.last() == SpecAsm::LABEL(sc.next)
            }
        }),
{
    let e = Expr::Closure(t, params, body, captured);
    let out = expr_code(sc, e).unwrap();
    let n = captured@.len() as int;
    let seeded = arg_names(params@) + names(captured@);
    let inner = body_scope(sc, seeded);
    assert(expr_code(sc, e) == closure_code(sc, e));
    let fetch = captures_code(sc, captured@, captured@.len()).unwrap();
    let b = block_code(inner, body@, body@.len()).unwrap();
    captures_are_fetched_in_order(sc, captured@, captured@.len());
    lemma_block_frame(inner, body@, body@.len());
    assert forall|i: int| 0 <= i < n implies (#[trigger] lookup(
        sc.locals,
        captured@[i]@,
    ) matches Some(slot) && fits_slot(slot) && out.code[i] == SpecAsm::GET(slot as u32)) by {
        assert(out.code[i] == fetch.code[i]);
    }
    assert(out.code.subrange(n + 3, out.code.len() - 1) =~= b.code);
}

/// The instructions of an expression leave on the stack exactly what the
/// expression's form tells: wherever the form tells an effect and the
/// expression has a lowering, the simulator, run over the emitted list,
/// finds that effect.
pub proof fn expression_keeps_its_stack_effect(sc: Scope, e: Expr)
    requires
        expr_code(sc, e) is Ok,
        expr_effect(e) is Some,
    ensures
        net_effect(expr_code(sc, e).unwrap().code) == expr_effect(e),
{
    lemma_expr_nets(sc, e);
}

/// The instructions of a statement leave on the stack exactly what the
/// statement's form tells.
pub proof fn statement_keeps_its_stack_effect(sc: Scope, s: Statement)
    requires
        stmt_code(sc, s) is Ok,
        stmt_effect(s) is Some,
    ensures
        net_effect(stmt_code(sc, s).unwrap().code) == stmt_effect(s),
{
    lemma_stmt_nets(sc, s);
}

/// An expression that stands for a value nets exactly one value. The
/// simulator follows the list from front to back, not the jumps.
pub proof fn value_expression_nets_one(sc: Scope, e: Expr)
    requires
        expr_code(sc, e) is Ok,
        is_value(e),
    ensures
        net_effect(expr_code(sc, e).unwrap().code) == Some(1int),
{
    lemma_value_effect(e);
    lemma_expr_nets(sc, e);
}

/// A balanced statement nets zero.
pub proof fn balanced_statement_nets_zero(sc: Scope, s: Statement)
    requires
        stmt_code(sc, s) is Ok,
        is_balanced(s),
    ensures
        net_effect(stmt_code(sc, s).unwrap().code) == Some(0int),
{
    lemma_balanced_effect(s);
    lemma_stmt_nets(sc, s);
}

/// A whole program of balanced statements, compiled from scratch with any
/// frame flags, nets zero: the frame header and the terminator leave the
/// stack alone.
pub proof fn balanced_program_nets_zero(
    sc: Scope,
    program: Seq<Statement>,
    alloc: bool,
    global: bool,
    function: bool,
)
    requires
        program_code(Seq::empty(), sc, program, alloc, global, function) is Ok,
        all_balanced(program, program.len()),
    ensures
        net_effect(
            program_code(Seq::empty(), sc, program, alloc, global, function).unwrap().code,
        ) == Some(0int),
{
    let out = block_code(sc, program, program.len()).unwrap();
    let header = frame_header(out, alloc, global, function).unwrap();
    lemma_block_balanced_effect(program, program.len());
    lemma_block_nets(sc, program, program.len());
    assert(net_effect(header) == Some(0int)) by {
        let g = SpecAsm::ALLOCGLOBBALS(out.globals.len() as u32);
        let l = SpecAsm::ALLOCLOCALS(out.locals.len() as u32);
        lemma_net_push(Seq::empty(), g);
        lemma_net_push(Seq::empty(), l);
        lemma_net_push(seq![g], l);
        assert(seq![g] =~= Seq::empty().push(g));
        assert(seq![l] =~= Seq::empty().push(l));
        assert(seq![g] + seq![l] =~= seq![g].push(l));
        assert(seq![g] + Seq::<SpecAsm>::empty() =~= seq![g]);
        assert(Seq::<SpecAsm>::empty() + seq![l] =~= seq![l]);
        assert(Seq::<SpecAsm>::empty() + Seq::<SpecAsm>::empty() =~= Seq::<SpecAsm>::empty());
    }
    lemma_net_concat(header, out.code);
    lemma_net_push(header + out.code, SpecAsm::RET(false));
    assert(header + Seq::<SpecAsm>::empty() + out.code + seq![SpecAsm::RET(false)] =~= (header
        + out.code).push(SpecAsm::RET(false)));
}

/// Jump labels are unique: in the instructions of an expression every
/// label id stands at most once, and only ids that were unused before the
/// expression and are used up after it.
pub proof fn expression_places_each_label_once(sc: Scope, e: Expr)
    requires
        expr_code(sc, e) is Ok,
    ensures
        sc.next <= expr_code(sc, e).unwrap().next,
        labels_once(
            expr_code(sc, e).unwrap().code,
            sc.next as int,
            expr_code(sc, e).unwrap().next as int,
        ),
{
    lemma_expr_fresh(sc, e);
}

/// Jump labels are unique across a whole block, nested function and
/// closure bodies included: every label id stands at most once, and only
/// ids that were unused before the block and are used up after it.
pub proof fn block_places_each_label_once(sc: Scope, block: Seq<Statement>)
    requires
        block_code(sc, block, block.len()) is Ok,
    ensures
        sc.next <= block_code(sc, block, block.len()).unwrap().next,
        labels_once(
            block_code(sc, block, block.len()).unwrap().code,
            sc.next as int,
            block_code(sc, block, block.len()).unwrap().next as int,
        ),
{
    lemma_block_fresh(sc, block, block.len());
}

/// Every jump has its label: in the instructions of a block, whatever a
/// jump, a `FUNCTION` or a `CLOSURE` names is the operand of exactly one
/// `LABEL` of the same block, unless it is the exit of a loop that
/// encloses the block.
pub proof fn every_jump_has_one_label(sc: Scope, block: Seq<Statement>)
    requires
        block_code(sc, block, block.len()) is Ok,
    ensures
        ({
            let code = block_code(sc, block, block.len()).unwrap().code;
            forall|i: int|
                0 <= i < code.len() ==> (#[trigger] target_of(code[i]) matches Some(l)
                    ==> count_label(code, l) == 1 || sc.breaks.contains(l))
        }),
{
    let out = block_code(sc, block, block.len()).unwrap();
    lemma_block_lands(sc, block, block.len());
    lemma_block_fresh(sc, block, block.len());
    assert forall|i: int| 0 <= i < out.code.len() implies (#[trigger] target_of(out.code[i])
        matches Some(l) ==> count_label(out.code, l) == 1 || sc.breaks.contains(l)) by {
        if let Some(l) = target_of(out.code[i]) {
            assert(count_label(out.code, l) <= at_most(sc.next as int, out.next as int, l));
        }
    }
}

/// In a whole program compiled from scratch outside of any loop, all
/// labels are distinct and every jump, `FUNCTION` and `CLOSURE` names
/// exactly one of them, nested function and closure bodies included.
pub proof fn program_labels_and_jumps_match(
    sc: Scope,
    program: Seq<Statement>,
    alloc: bool,
    global: bool,
    function: bool,
)
    requires
        program_code(Seq::empty(), sc, program, alloc, global, function) is Ok,
        sc.breaks.len() == 0,
    ensures
        ({
            let code = program_code(
                Seq::empty(),
                sc,
                program,
                alloc,
                global,
                function,
            ).unwrap().code;
            &&& forall|l: usize| #[trigger] count_label(code, l) <= 1
            &&& forall|i: int|
                0 <= i < code.len() ==> (#[trigger] target_of(code[i]) matches Some(l)
                    ==> count_label(code, l) == 1)
        }),
{
    let out = block_code(sc, program, program.len()).unwrap();
    let header = frame_header(out, alloc, global, function).unwrap();
    let last = seq![SpecAsm::RET(false)];
    let code = program_code(Seq::empty(), sc, program, alloc, global, function).unwrap().code;
    let none = Set::<usize>::empty();
    assert(code =~= header + out.code + last);
    lemma_block_lands(sc, program, program.len());
    lemma_block_fresh(sc, program, program.len());
    assert(loop_exits(sc.breaks).subset_of(none));
    lemma_land_wider(out.code, loop_exits(sc.breaks), none);
    lemma_land_outside(header, none);
    lemma_land_outside(last, none);
    lemma_land_concat(header, out.code, none);
    lemma_land_concat(header + out.code, last, none);
    assert forall|l: usize| #[trigger] count_label(code, l) <= 1 by {
        lemma_count_concat(header + out.code, last, l);
        lemma_count_concat(header, out.code, l);
        lemma_count_plain(header, l);
        lemma_count_plain(last, l);
        assert(count_label(out.code, l) <= at_most(sc.next as int, out.next as int, l));
    }
    assert forall|i: int| 0 <= i < code.len() implies (#[trigger] target_of(code[i])
        matches Some(l) ==> count_label(code, l) == 1) by {
        if let Some(l) = target_of(code[i]) {
            assert(count_label(code, l) <= 1);
        }
    }
}

/// A context whose instructions place and name only label ids that were
/// issued stays so: after a block is lowered onto instructions whose ids
/// are all below the label counter, in loops whose exits are below it, the
/// ids of all instructions are below the new label counter.
pub proof fn lowering_uses_only_issued_labels(
    earlier: Seq<SpecAsm>,
    sc: Scope,
    block: Seq<Statement>,
)
    requires
        block_code(sc, block, block.len()) is Ok,
        ids_below(earlier, sc.next as int),
        forall|i: int| 0 <= i < sc.breaks.len() ==> sc.breaks[i] < sc.next,
    ensures
        ({
            let out = block_code(sc, block, block.len()).unwrap();
            ids_below(earlier + out.code, out.next as int)
        }),
{
    let out = block_code(sc, block, block.len()).unwrap();
    lemma_block_lands(sc, block, block.len());
    lemma_block_fresh(sc, block, block.len());
    lemma_ids_of_lowered(sc, out.code, out.next);
    let whole = earlier + out.code;
    assert forall|i: int| 0 <= i < whole.len() implies {
        &&& (#[trigger] whole[i]) matches SpecAsm::LABEL(l) ==> l < out.next
        &&& target_of(whole[i]) matches Some(l) ==> l < out.next
    } by {
        if i < earlier.len() {
            assert(whole[i] == earlier[i]);
        } else {
            assert(whole[i] == out.code[i - earlier.len()]);
        }
    }
}

/// The label of `a && b` is fresh: it is the first id that the label
/// counter had not issued, so no earlier instruction places or names it,
/// and neither does any instruction of `a` or of `b`, which take their
/// labels after it.
pub proof fn and_label_is_fresh(earlier: Seq<SpecAsm>, sc: Scope, t: TType, a: Expr, b: Expr)
    requires
        expr_code(sc, Expr::Binop(t, Operator::And, Box::new(a), Box::new(b))) is Ok,
        ids_below(earlier, sc.next as int),
        forall|i: int| 0 <= i < sc.breaks.len() ==> sc.breaks[i] < sc.next,
    ensures
        ({
            let left = expr_code(sc.skip_labels(1), a);
            let right = expr_code(sc.after(left), b);
            &&& left is Ok
            &&& right is Ok
            &&& never_mentions(earlier, sc.next)
            &&& never_mentions(left.unwrap().code, sc.next)
            &&& never_mentions(right.unwrap().code, sc.next)
        }),
{
    and_is_left_then_guarded_right(sc, t, a, b);
    let first = sc.skip_labels(1);
    let left = expr_code(first, a);
    let second = sc.after(left);
    let right = expr_code(second, b);
    lemma_expr_fresh(first, a);
    lemma_expr_lands(first, a);
    lemma_ids_of_lowered(first, left.unwrap().code, left.unwrap().next);
    lemma_expr_fresh(second, b);
    lemma_expr_lands(second, b);
    lemma_ids_of_lowered(second, right.unwrap().code, right.unwrap().next);
    if sc.breaks.contains(sc.next) {
        let k = choose|k: int| 0 <= k < sc.breaks.len() && sc.breaks[k] == sc.next;
        assert(sc.breaks[k] < sc.next);
    }
}

} // verus!
