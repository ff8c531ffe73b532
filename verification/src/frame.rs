//! What a lowering leaves alone: an expression changes neither table, a
//! statement only appends to them, and label ids only go up.

use vstd::prelude::*;
use crate::lowering::{
    arg_names, atom_code, binop_code, block_code, body_scope, captures_code, closure_code,
    expr_code, exprs_code, ref_code, stmt_code, Lowered, Scope,
};
use crate::nodes::{Atom, Expr, Statement};
use crate::table::names;

verus! {

/// `r`, if it succeeded in `sc`, left the locals and the globals as they
/// were and issued label ids upwards only.
pub open spec fn keeps_tables(sc: Scope, r: Lowered) -> bool {
    r matches Ok(out) ==> {
        &&& out.locals == sc.locals
        &&& out.globals == sc.globals
        &&& sc.next <= out.next
    }
}

/// `r`, if it succeeded in `sc`, kept every slot of the locals and of the
/// globals, possibly adding slots after them, and issued label ids upwards
/// only.
pub open spec fn grows_tables(sc: Scope, r: Lowered) -> bool {
    r matches Ok(out) ==> {
        &&& sc.locals.is_prefix_of(out.locals)
        &&& sc.globals.is_prefix_of(out.globals)
        &&& sc.next <= out.next
    }
}

/// An assignment target changes nothing in the scope.
pub proof fn lemma_ref_frame(sc: Scope, e: Expr)
    ensures
        ref_code(sc, e) matches Ok(out) ==> out.locals == sc.locals && out.globals == sc.globals
            && out.next == sc.next,
    decreases e,
{
    match e {
        Expr::Field(_, _, _, base) => {
            lemma_ref_frame(sc, *base);
        },
        Expr::Indexed(_, _, _, base) => {
            lemma_ref_frame(sc, *base);
        },
        _ => {},
    }
}

/// Fetching captured names changes nothing in the scope.
pub proof fn lemma_captures_frame(sc: Scope, captured: Seq<String>, n: nat)
    ensures
        captures_code(sc, captured, n) matches Ok(out) ==> out.locals == sc.locals && out.globals
            == sc.globals && out.next == sc.next,
    decreases n,
{
    if !(n == 0 || n > captured.len()) {
        lemma_captures_frame(sc, captured, (n - 1) as nat);
    }
}

/// An expression keeps both tables.
pub proof fn lemma_expr_frame(sc: Scope, e: Expr)
    ensures
        keeps_tables(sc, expr_code(sc, e)),
    decreases e, 1nat,
{
    match e {
        Expr::Empty => {},
        Expr::ListConstructor(_, list) => {
            lemma_exprs_frame(sc, list@, list@.len());
        },
        Expr::Field(_, _, _, base) => {
            lemma_expr_frame(sc, *base);
        },
        Expr::Indexed(_, _, index, base) => {
            lemma_expr_frame(sc, *index);
            lemma_expr_frame(sc.after(expr_code(sc, *index)), *base);
        },
        Expr::Call(_, _, callee, args) => {
            let a = exprs_code(sc, args@, args@.len());
            lemma_exprs_frame(sc, args@, args@.len());
            lemma_ref_frame(sc.after(a), *callee);
        },
        Expr::Unary(_, _, operand) => {
            lemma_expr_frame(sc, *operand);
        },
        Expr::Binop(_, _, _, _) => {
            lemma_binop_frame(sc, e);
        },
        Expr::Literal(_, atom) => {
            lemma_atom_frame(sc, atom);
        },
        Expr::Closure(_, _, _, _) => {
            lemma_closure_frame(sc, e);
        },
    }
}

/// A list of expressions keeps both tables.
pub proof fn lemma_exprs_frame(sc: Scope, list: Seq<Expr>, n: nat)
    ensures
        keeps_tables(sc, exprs_code(sc, list, n)),
    decreases list, n,
{
    if !(n == 0 || n > list.len()) {
        let front = exprs_code(sc, list, (n - 1) as nat);
        lemma_exprs_frame(sc, list, (n - 1) as nat);
        lemma_expr_frame(sc.after(front), list[n - 1]);
    }
}

/// An atom keeps both tables.
pub proof fn lemma_atom_frame(sc: Scope, atom: Atom)
    ensures
        keeps_tables(sc, atom_code(sc, atom)),
    decreases atom, 0nat,
{
    match atom {
        Atom::Call(_, args) => {
            lemma_exprs_frame(sc, args@, args@.len());
        },
        _ => {},
    }
}

/// An infix operation keeps both tables.
pub proof fn lemma_binop_frame(sc: Scope, e: Expr)
    ensures
        keeps_tables(sc, binop_code(sc, e)),
    decreases e, 0nat,
{
    match e {
        Expr::Binop(_, op, lhs, rhs) => {
            // left operand first
            let l = expr_code(sc, *lhs);
            lemma_expr_frame(sc, *lhs);
            lemma_expr_frame(sc.after(l), *rhs);
            // right operand first
            let r = expr_code(sc, *rhs);
            lemma_expr_frame(sc, *rhs);
            lemma_expr_frame(sc.after(r), *lhs);
            lemma_ref_frame(sc.after(r), *lhs);
            lemma_ref_frame(sc.after(expr_code(sc.after(r), *lhs)), *lhs);
            // after a label was issued
            if sc.has_labels(1) {
                let l1 = expr_code(sc.skip_labels(1), *lhs);
                lemma_expr_frame(sc.skip_labels(1), *lhs);
                let r1 = expr_code(sc.after(l1), *rhs);
                lemma_expr_frame(sc.after(l1), *rhs);
                let l2 = expr_code(sc.after(r1), *lhs);
                lemma_expr_frame(sc.after(r1), *lhs);
                lemma_expr_frame(sc.after(l2), *rhs);
            }
        },
        _ => {},
    }
}

/// A closure keeps both tables of the scope that declares it.
pub proof fn lemma_closure_frame(sc: Scope, e: Expr)
    ensures
        keeps_tables(sc, closure_code(sc, e)),
    decreases e, 0nat,
{
    match e {
        Expr::Closure(_, params, body, captured) => {
            lemma_captures_frame(sc, captured@, captured@.len());
            if sc.has_labels(1) {
                let seeded = arg_names(params@) + names(captured@);
                lemma_block_frame(body_scope(sc, seeded), body@, body@.len());
            }
        },
        _ => {},
    }
}

/// A statement only appends to the tables.
pub proof fn lemma_stmt_frame(sc: Scope, s: Statement)
    ensures
        grows_tables(sc, stmt_code(sc, s)),
    decreases s, 0nat,
{
    match s {
        Statement::Pass => {},
        Statement::Let(_, _, init) => {
            lemma_expr_frame(sc, init);
        },
        Statement::Function(_, name, params, body) => {
            if sc.has_labels(1) {
                let declared = Scope { globals: sc.globals.push(name@), ..sc };
                lemma_block_frame(
                    body_scope(declared, arg_names(params@)),
                    body@,
                    body@.len(),
                );
            }
        },
        Statement::Struct(_, _, _) => {},
        Statement::Return(_, value, _, _) => {
            lemma_expr_frame(sc, value);
        },
        Statement::Expression(_, e) => {
            lemma_expr_frame(sc, e);
        },
        Statement::If(_, test, body, alternative) => {
            if sc.has_labels(2) {
                let t = expr_code(sc.skip_labels(2), test);
                lemma_expr_frame(sc.skip_labels(2), test);
                let b = block_code(sc.after(t), body@, body@.len());
                lemma_block_frame(sc.after(t), body@, body@.len());
                match alternative {
                    None => {},
                    Some(alt) => {
                        lemma_block_frame(sc.after(b), alt@, alt@.len());
                    },
                }
            }
        },
        Statement::While(test, body) => {
            if sc.has_labels(2) {
                let inner = sc.skip_labels(2).in_loop((sc.next + 1) as usize);
                let t = expr_code(inner, test);
                lemma_expr_frame(inner, test);
                lemma_block_frame(inner.after(t), body@, body@.len());
            }
        },
        Statement::For(init, test, step, body) => {
            if sc.has_labels(2) {
                let inner = sc.skip_labels(2).in_loop((sc.next + 1) as usize);
                let i = expr_code(inner, init);
                lemma_expr_frame(inner, init);
                let t = expr_code(inner.after(i), test);
                lemma_expr_frame(inner.after(i), test);
                let b = block_code(inner.after(t), body@, body@.len());
                lemma_block_frame(inner.after(t), body@, body@.len());
                lemma_expr_frame(inner.after(b), step);
            }
        },
        Statement::Break => {},
        Statement::Continue => {},
        Statement::Block(body) => {
            lemma_block_frame(sc, body@, body@.len());
        },
    }
}

/// A block only appends to the tables.
pub proof fn lemma_block_frame(sc: Scope, block: Seq<Statement>, n: nat)
    ensures
        grows_tables(sc, block_code(sc, block, n)),
    decreases block, n,
{
    if !(n == 0 || n > block.len()) {
        let front = block_code(sc, block, (n - 1) as nat);
        lemma_block_frame(sc, block, (n - 1) as nat);
        lemma_stmt_frame(sc.after(front), block[n - 1]);
    }
}

/// Once a prefix of a list of expressions fails, every longer prefix
/// fails in the same way.
pub proof fn lemma_exprs_failure_stays(sc: Scope, list: Seq<Expr>, k: nat, n: nat)
    requires
        k <= n <= list.len(),
        exprs_code(sc, list, k) is Err,
    ensures
        exprs_code(sc, list, n) == exprs_code(sc, list, k),
    decreases n,
{
    if k < n {
        lemma_exprs_failure_stays(sc, list, k, (n - 1) as nat);
    }
}

/// Once a prefix of a block fails, every longer prefix fails in the same
/// way.
pub proof fn lemma_block_failure_stays(sc: Scope, block: Seq<Statement>, k: nat, n: nat)
    requires
        k <= n <= block.len(),
        block_code(sc, block, k) is Err,
    ensures
        block_code(sc, block, n) == block_code(sc, block, k),
    decreases n,
{
    if k < n {
        lemma_block_failure_stays(sc, block, k, (n - 1) as nat);
    }
}

/// Once the fetch of a captured name fails, the fetch of any longer prefix
/// fails in the same way.
pub proof fn lemma_captures_failure_stays(sc: Scope, captured: Seq<String>, k: nat, n: nat)
    requires
        k <= n <= captured.len(),
        captures_code(sc, captured, k) is Err,
    ensures
        captures_code(sc, captured, n) == captures_code(sc, captured, k),
    decreases n,
{
    if k < n {
        lemma_captures_failure_stays(sc, captured, k, (n - 1) as nat);
    }
}

} // verus!
