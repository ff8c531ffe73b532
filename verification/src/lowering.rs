//! The lowering scheme: for each form of the syntax tree, the
//! instructions that it lowers to, as spec functions.
//!
//! A lowering reads a [`Scope`] and gives either the instructions with the
//! tables and label counter as they stand afterwards, or the reason why the
//! form has no lowering. Operands are lowered left to right, and the first
//! failure is the failure of the whole.

use vstd::prelude::*;
use crate::code::SpecAsm;
use crate::error::ErrorKind;
use crate::nodes::{Arg, Atom, Expr, Statement};
use crate::table::{lookup, names};
use crate::tokens::{Numeric, Operator, Unary};

verus! {

/// What a lowering reads: the names of the current frame's locals, of the
/// globals and of the native functions, each in slot order; the exit
/// labels of the enclosing loops, innermost last; and the next unused
/// label id.
#[verifier::ext_equal]
pub struct Scope {
    pub locals: Seq<Seq<char>>,
    pub globals: Seq<Seq<char>>,
    pub natives: Seq<Seq<char>>,
    pub breaks: Seq<usize>,
    pub next: usize,
}

/// What a lowering gives: the instructions, and the locals, globals and
/// next unused label id as they stand after it.
#[verifier::ext_equal]
pub struct Emitted {
    pub code: Seq<SpecAsm>,
    pub locals: Seq<Seq<char>>,
    pub globals: Seq<Seq<char>>,
    pub next: usize,
}

/// The outcome of a lowering.
pub type Lowered = Result<Emitted, ErrorKind>;

impl Scope {
    /// This scope once `out` has been emitted in it.
    pub open spec fn past(self, out: Emitted) -> Scope {
        Scope {
            locals: out.locals,
            globals: out.globals,
            natives: self.natives,
            breaks: self.breaks,
            next: out.next,
        }
    }

    /// The scope in which the lowering after `r` takes place.
    pub open spec fn after(self, r: Lowered) -> Scope {
        match r {
            Ok(out) => self.past(out),
            Err(_) => self,
        }
    }

    /// Instructions that leave the scope as it is.
    pub open spec fn emit(self, code: Seq<SpecAsm>) -> Lowered {
        Ok(Emitted { code, locals: self.locals, globals: self.globals, next: self.next })
    }

    /// Whether `n` more label ids can be issued.
    pub open spec fn has_labels(self, n: int) -> bool {
        self.next + n <= usize::MAX
    }

    /// This scope after `n` label ids were issued.
    pub open spec fn skip_labels(self, n: int) -> Scope {
        Scope { next: (self.next + n) as usize, ..self }
    }

    /// This scope inside a loop whose exit label is `end`.
    pub open spec fn in_loop(self, end: usize) -> Scope {
        Scope { breaks: self.breaks.push(end), ..self }
    }
}

/// `a`, then `b`; `b` is expected to be lowered in the scope after `a`.
pub open spec fn chain(a: Lowered, b: Lowered) -> Lowered {
    match a {
        Err(e) => Err(e),
        Ok(x) => match b {
            Err(e) => Err(e),
            Ok(y) => Ok(
                Emitted {
                    code: x.code + y.code,
                    locals: y.locals,
                    globals: y.globals,
                    next: y.next,
                },
            ),
        },
    }
}

/// `a`, then the given instructions.
pub open spec fn followed_by(a: Lowered, code: Seq<SpecAsm>) -> Lowered {
    match a {
        Err(e) => Err(e),
        Ok(x) => Ok(
            Emitted { code: x.code + code, locals: x.locals, globals: x.globals, next: x.next },
        ),
    }
}

/// `a`, then the instruction `op` if there is one, else the failure of `op`.
pub open spec fn followed_by_op(a: Lowered, op: Result<SpecAsm, ErrorKind>) -> Lowered {
    match a {
        Err(e) => Err(e),
        Ok(x) => match op {
            Err(e) => Err(e),
            Ok(i) => Ok(
                Emitted {
                    code: x.code.push(i),
                    locals: x.locals,
                    globals: x.globals,
                    next: x.next,
                },
            ),
        },
    }
}

/// Whether a slot, count or index fits a 32-bit operand.
pub open spec fn fits_slot(i: int) -> bool {
    0 <= i <= u32::MAX
}

/// The names of declared parameters, in order.
pub open spec fn arg_names(params: Seq<Arg>) -> Seq<Seq<char>> {
    params.map_values(|a: Arg| a.identifier@)
}

/// The built-in `print`, under either spelling.
pub open spec fn is_print(name: Seq<char>) -> bool {
    name == "print"@ || name == "super::print"@
}

/// The built-in `free`, under either spelling.
pub open spec fn is_free(name: Seq<char>) -> bool {
    name == "free"@ || name == "super::free"@
}

/// The built-in `clone`, under either spelling.
pub open spec fn is_clone(name: Seq<char>) -> bool {
    name == "clone"@ || name == "super::clone"@
}

/// The instruction of an arithmetic or relational operator, chosen by the
/// numeric class of its left operand. The compound assignments take the
/// instruction of their arithmetic operator, `>=` and `<=` that of their
/// strict comparison.
pub open spec fn typed_op(op: Operator, class: Numeric) -> Result<SpecAsm, ErrorKind> {
    match class {
        Numeric::Other => Err(ErrorKind::NonNumericOperand),
        Numeric::Int => match op {
            Operator::Addition | Operator::AdditionAssignment => Ok(SpecAsm::IADD),
            Operator::Subtraction | Operator::SubtractionAssignment => Ok(SpecAsm::ISUB),
            Operator::Multiplication => Ok(SpecAsm::IMUL),
            Operator::Division => Ok(SpecAsm::IDIV),
            Operator::Modulo => Ok(SpecAsm::IMODULO),
            Operator::GreaterThan | Operator::GtrOrEqu => Ok(SpecAsm::IGTR),
            Operator::LessThan | Operator::LssOrEqu => Ok(SpecAsm::ILSS),
            _ => Err(ErrorKind::UnsupportedOperator),
        },
        Numeric::Float => match op {
            Operator::Addition | Operator::AdditionAssignment => Ok(SpecAsm::FADD),
            Operator::Subtraction | Operator::SubtractionAssignment => Ok(SpecAsm::FSUB),
            Operator::Multiplication => Ok(SpecAsm::FMUL),
            Operator::Division => Ok(SpecAsm::FDIV),
            Operator::Modulo => Ok(SpecAsm::FMODULO),
            Operator::GreaterThan | Operator::GtrOrEqu => Ok(SpecAsm::FGTR),
            Operator::LessThan | Operator::LssOrEqu => Ok(SpecAsm::FLSS),
            _ => Err(ErrorKind::UnsupportedOperator),
        },
    }
}

/// The call of `name` once its arguments are on the stack: a built-in is
/// its own instruction; else a native function is called by its slot; else
/// a local is fetched and called indirectly; else a global is called by
/// its slot.
pub open spec fn callee_code(sc: Scope, name: Seq<char>) -> Lowered {
    if is_print(name) {
        sc.emit(seq![SpecAsm::PRINT])
    } else if is_free(name) {
        sc.emit(seq![SpecAsm::FREE])
    } else if is_clone(name) {
        sc.emit(seq![SpecAsm::CLONE])
    } else {
        match lookup(sc.natives, name) {
            Some(i) => sc.emit(seq![SpecAsm::NATIVE(i as usize)]),
            None => match lookup(sc.locals, name) {
                Some(i) => if fits_slot(i) {
                    sc.emit(seq![SpecAsm::GET(i as u32), SpecAsm::CALL])
                } else {
                    Err(ErrorKind::OperandOutOfRange)
                },
                None => match lookup(sc.globals, name) {
                    Some(i) => if fits_slot(i) {
                        sc.emit(seq![SpecAsm::DCALL(i as u32)])
                    } else {
                        Err(ErrorKind::OperandOutOfRange)
                    },
                    None => Err(ErrorKind::UnresolvedIdentifier),
                },
            },
        }
    }
}

/// The value of the identifier `name`: a local is fetched by its slot,
/// else a global by its slot.
pub open spec fn name_code(sc: Scope, name: Seq<char>) -> Lowered {
    match lookup(sc.locals, name) {
        Some(i) => if fits_slot(i) {
            sc.emit(seq![SpecAsm::GET(i as u32)])
        } else {
            Err(ErrorKind::OperandOutOfRange)
        },
        None => match lookup(sc.globals, name) {
            Some(i) => if fits_slot(i) {
                sc.emit(seq![SpecAsm::GETGLOBAL(i as u32)])
            } else {
                Err(ErrorKind::OperandOutOfRange)
            },
            None => Err(ErrorKind::UnresolvedIdentifier),
        },
    }
}

/// A reference to the local `name`.
pub open spec fn local_ref_code(sc: Scope, name: Seq<char>) -> Lowered {
    match lookup(sc.locals, name) {
        Some(i) => if fits_slot(i) {
            sc.emit(seq![SpecAsm::STACKREF(i as u32)])
        } else {
            Err(ErrorKind::OperandOutOfRange)
        },
        None => Err(ErrorKind::UnresolvedIdentifier),
    }
}

/// An atom as an assignment target: only an identifier bound to a local
/// is one.
pub open spec fn ref_atom_code(sc: Scope, atom: Atom) -> Lowered {
    match atom {
        Atom::Id(name) => local_ref_code(sc, name@),
        _ => Err(ErrorKind::UnsupportedAssignmentTarget),
    }
}

/// The index of an indexed assignment target: the value of a local, or an
/// integer literal.
pub open spec fn ref_index_code(sc: Scope, index: Expr) -> Lowered {
    match index {
        Expr::Literal(_, Atom::Id(name)) => local_value_code(sc, name@),
        Expr::Literal(_, Atom::Integer(n)) => sc.emit(seq![SpecAsm::INTEGER(n)]),
        _ => Err(ErrorKind::UnsupportedAssignmentTarget),
    }
}

/// An expression as an assignment target: instructions that push a
/// reference. A field or an element of a target is a target: the field
/// index or the value of the element index comes first, then the
/// reference to the base, then `PIN`.
pub open spec fn ref_code(sc: Scope, e: Expr) -> Lowered
    decreases e,
{
    match e {
        Expr::Field(_, _, index, base) => if index <= i64::MAX {
            followed_by(
                chain(sc.emit(seq![SpecAsm::INTEGER(index as i64)]), ref_code(sc, *base)),
                seq![SpecAsm::PIN],
            )
        } else {
            Err(ErrorKind::OperandOutOfRange)
        },
        Expr::Indexed(_, _, index, base) => followed_by(
            chain(ref_index_code(sc, *index), ref_code(sc, *base)),
            seq![SpecAsm::PIN],
        ),
        Expr::Literal(_, atom) => ref_atom_code(sc, atom),
        _ => Err(ErrorKind::UnsupportedAssignmentTarget),
    }
}

/// The value of the local `name`.
pub open spec fn local_value_code(sc: Scope, name: Seq<char>) -> Lowered {
    match lookup(sc.locals, name) {
        Some(i) => if fits_slot(i) {
            sc.emit(seq![SpecAsm::GET(i as u32)])
        } else {
            Err(ErrorKind::OperandOutOfRange)
        },
        None => Err(ErrorKind::UnresolvedIdentifier),
    }
}

/// The fetches of the first `n` captured names from the enclosing locals,
/// in declaration order.
pub open spec fn captures_code(sc: Scope, captured: Seq<String>, n: nat) -> Lowered
    decreases n,
{
    if n == 0 || n > captured.len() {
        sc.emit(seq![])
    } else {
        chain(
            captures_code(sc, captured, (n - 1) as nat),
            local_value_code(sc, captured[n - 1]@),
        )
    }
}

/// The scope of a function or closure body declared in `sc` under the
/// label `sc.next`: its locals are exactly `locals`; the globals, the
/// native functions and the loop exits are those of `sc`.
pub open spec fn body_scope(sc: Scope, locals: Seq<Seq<char>>) -> Scope {
    Scope {
        locals,
        globals: sc.globals,
        natives: sc.natives,
        breaks: sc.breaks,
        next: (sc.next + 1) as usize,
    }
}

/// An expression in value position.
pub open spec fn expr_code(sc: Scope, e: Expr) -> Lowered
    decreases e, 2nat,
{
    match e {
        Expr::Empty => sc.emit(seq![]),
        Expr::ListConstructor(_, list) => followed_by(
            exprs_code(sc, list@, list@.len()),
            seq![SpecAsm::LIST(list@.len() as usize)],
        ),
        Expr::Field(_, _, index, base) => if index <= i64::MAX {
            followed_by(
                chain(sc.emit(seq![SpecAsm::INTEGER(index as i64)]), expr_code(sc, *base)),
                seq![SpecAsm::LIN],
            )
        } else {
            Err(ErrorKind::OperandOutOfRange)
        },
        Expr::Indexed(_, _, index, base) => {
            let i = expr_code(sc, *index);
            followed_by(chain(i, expr_code(sc.after(i), *base)), seq![SpecAsm::LIN])
        },
        Expr::Call(_, _, callee, args) => {
            let a = exprs_code(sc, args@, args@.len());
            followed_by(chain(a, ref_code(sc.after(a), *callee)), seq![SpecAsm::CALL])
        },
        Expr::Unary(_, op, operand) => match op {
            Unary::Positive => Err(ErrorKind::UnaryPositive),
            Unary::Negitive => followed_by(expr_code(sc, *operand), seq![SpecAsm::NEG]),
            Unary::Not => followed_by(expr_code(sc, *operand), seq![SpecAsm::NOT]),
        },
        Expr::Binop(_, _, _, _) => binop_code(sc, e),
        Expr::Literal(_, atom) => atom_code(sc, atom),
        Expr::Closure(_, _, _, _) => closure_code(sc, e),
    }
}

/// The first `n` expressions of a list, left to right.
pub open spec fn exprs_code(sc: Scope, list: Seq<Expr>, n: nat) -> Lowered
    decreases list, n,
{
    if n == 0 || n > list.len() {
        sc.emit(seq![])
    } else {
        let front = exprs_code(sc, list, (n - 1) as nat);
        chain(front, expr_code(sc.after(front), list[n - 1]))
    }
}

/// An atom in value position.
pub open spec fn atom_code(sc: Scope, atom: Atom) -> Lowered
    decreases atom, 0nat,
{
    match atom {
        Atom::Bool(b) => sc.emit(seq![SpecAsm::BOOL(b)]),
        Atom::Id(name) => name_code(sc, name@),
        Atom::Float(bits) => sc.emit(seq![SpecAsm::FLOAT(bits)]),
        Atom::String(s) => sc.emit(seq![SpecAsm::STRING(s@)]),
        Atom::Integer(n) => sc.emit(seq![SpecAsm::INTEGER(n)]),
        Atom::Call(name, args) => {
            let a = exprs_code(sc, args@, args@.len());
            chain(a, callee_code(sc.after(a), name@))
        },
    }
}

/// An infix operation (`e` is a `Binop`).
pub open spec fn binop_code(sc: Scope, e: Expr) -> Lowered
    decreases e, 1nat,
{
    match e {
        Expr::Binop(_, op, _, _) => match op {
            Operator::Addition
            | Operator::Subtraction
            | Operator::Multiplication
            | Operator::Division
            | Operator::Modulo
            | Operator::GreaterThan
            | Operator::LessThan
            | Operator::Equality
            | Operator::NotEqual
            | Operator::Not => operands_code(sc, e),
            Operator::Assignment => assignment_code(sc, e),
            Operator::AdditionAssignment | Operator::SubtractionAssignment => compound_code(
                sc,
                e,
            ),
            Operator::GtrOrEqu | Operator::LssOrEqu => ordered_or_equal_code(sc, e),
            Operator::And | Operator::Or => short_circuit_code(sc, e),
            Operator::RightArrow
            | Operator::Access
            | Operator::ListAccess
            | Operator::Call
            | Operator::DoubleColon
            | Operator::Colon => Err(ErrorKind::UnsupportedOperator),
        },
        _ => Err(ErrorKind::UnsupportedOperator),
    }
}

/// An operator on two values (`e` is a `Binop`): the left operand, the
/// right operand, then the operator. `==` is `EQUALS`, `!=` is `EQUALS`
/// and `NOT`, the infix `not` is `NOT`; an arithmetic or relational
/// operator is the instruction typed by its left operand.
pub open spec fn operands_code(sc: Scope, e: Expr) -> Lowered
    decreases e, 0nat,
{
    match e {
        Expr::Binop(_, op, lhs, rhs) => {
            let l = expr_code(sc, *lhs);
            let r = expr_code(sc.after(l), *rhs);
            match op {
                Operator::Equality => followed_by(chain(l, r), seq![SpecAsm::EQUALS]),
                Operator::NotEqual => followed_by(
                    chain(l, r),
                    seq![SpecAsm::EQUALS, SpecAsm::NOT],
                ),
                Operator::Not => followed_by(chain(l, r), seq![SpecAsm::NOT]),
                _ => followed_by_op(chain(l, r), typed_op(op, lhs.numeric())),
            }
        },
        _ => Err(ErrorKind::UnsupportedOperator),
    }
}

/// An assignment (`e` is a `Binop`): the value of the right side, then the
/// reference to the left side, then `ASSIGN`.
pub open spec fn assignment_code(sc: Scope, e: Expr) -> Lowered
    decreases e, 0nat,
{
    match e {
        Expr::Binop(_, _, lhs, rhs) => {
            let r = expr_code(sc, *rhs);
            followed_by(chain(r, ref_code(sc.after(r), *lhs)), seq![SpecAsm::ASSIGN])
        },
        _ => Err(ErrorKind::UnsupportedOperator),
    }
}

/// A compound assignment (`e` is a `Binop`): the right operand, the
/// current value of the left operand, the arithmetic instruction typed by
/// the left operand, then the reference to the left side and `ASSIGN`.
pub open spec fn compound_code(sc: Scope, e: Expr) -> Lowered
    decreases e, 0nat,
{
    match e {
        Expr::Binop(_, op, lhs, rhs) => {
            let r = expr_code(sc, *rhs);
            let l = expr_code(sc.after(r), *lhs);
            let value = followed_by_op(chain(r, l), typed_op(op, lhs.numeric()));
            followed_by(chain(value, ref_code(sc.after(value), *lhs)), seq![SpecAsm::ASSIGN])
        },
        _ => Err(ErrorKind::UnsupportedOperator),
    }
}

/// `>=` or `<=` (`e` is a `Binop`): the strict comparison of both
/// operands; if it holds, a jump over the rest to a fresh label; else the
/// result is dropped and both operands are lowered again for `EQUALS`.
pub open spec fn ordered_or_equal_code(sc: Scope, e: Expr) -> Lowered
    decreases e, 0nat,
{
    match e {
        Expr::Binop(_, op, lhs, rhs) => if sc.has_labels(1) {
            let l = expr_code(sc.skip_labels(1), *lhs);
            let r = expr_code(sc.after(l), *rhs);
            let strict = followed_by_op(chain(l, r), typed_op(op, lhs.numeric()));
            let l2 = expr_code(sc.after(strict), *lhs);
            let r2 = expr_code(sc.after(l2), *rhs);
            followed_by(
                chain(
                    followed_by(
                        strict,
                        seq![
                            SpecAsm::DUP,
                            SpecAsm::NOT,
                            SpecAsm::JUMPIFFALSE(sc.next),
                            SpecAsm::POP,
                        ],
                    ),
                    chain(l2, r2),
                ),
                seq![SpecAsm::EQUALS, SpecAsm::LABEL(sc.next)],
            )
        } else {
            Err(ErrorKind::LabelsExhausted)
        },
        _ => Err(ErrorKind::UnsupportedOperator),
    }
}

/// The test between the operands of `&&` or `||`, which jumps to `label`
/// with the left value on the stack when that value decides the result,
/// and drops it otherwise.
pub open spec fn short_circuit_test(op: Operator, label: usize) -> Seq<SpecAsm> {
    if op is Or {
        seq![SpecAsm::DUP, SpecAsm::NOT, SpecAsm::JUMPIFFALSE(label), SpecAsm::POP]
    } else {
        seq![SpecAsm::DUP, SpecAsm::JUMPIFFALSE(label), SpecAsm::POP]
    }
}

/// `&&` or `||` (`e` is a `Binop`): the left operand, the test, the right
/// operand, and the fresh label that the test jumps to.
pub open spec fn short_circuit_code(sc: Scope, e: Expr) -> Lowered
    decreases e, 0nat,
{
    match e {
        Expr::Binop(_, op, lhs, rhs) => if sc.has_labels(1) {
            let l = expr_code(sc.skip_labels(1), *lhs);
            let r = expr_code(sc.after(l), *rhs);
            followed_by(
                chain(followed_by(l, short_circuit_test(op, sc.next)), r),
                seq![SpecAsm::LABEL(sc.next)],
            )
        } else {
            Err(ErrorKind::LabelsExhausted)
        },
        _ => Err(ErrorKind::UnsupportedOperator),
    }
}

/// A closure (`e` is a `Closure`): the captured names are fetched from the
/// enclosing locals in declaration order and bundled into a list; the body
/// is lowered in a scope of its own whose locals are the parameters
/// followed by the captured names, and spliced in between the arity record
/// and the closure's label. Only the label counter comes back from the
/// body.
pub open spec fn closure_code(sc: Scope, e: Expr) -> Lowered
    decreases e, 0nat,
{
    match e {
        Expr::Closure(_, params, body, captured) => {
            let fetch = followed_by(
                captures_code(sc, captured@, captured@.len()),
                seq![SpecAsm::LIST(captured@.len() as usize)],
            );
            match fetch {
                Err(e) => Err(e),
                Ok(f) => if sc.has_labels(1) {
                    let seeded = arg_names(params@) + names(captured@);
                    match block_code(body_scope(sc, seeded), body@, body@.len()) {
                        Err(e) => Err(e),
                        Ok(b) => if fits_slot(seeded.len() as int) && fits_slot(
                            b.locals.len() - seeded.len(),
                        ) {
                            Ok(
                                Emitted {
                                    code: f.code + seq![
                                        SpecAsm::CLOSURE(sc.next),
                                        SpecAsm::OFFSET(
                                            seeded.len() as u32,
                                            (b.locals.len() - seeded.len()) as u32,
                                        ),
                                    ] + b.code + seq![SpecAsm::LABEL(sc.next)],
                                    locals: sc.locals,
                                    globals: sc.globals,
                                    next: b.next,
                                },
                            )
                        } else {
                            Err(ErrorKind::OperandOutOfRange)
                        },
                    }
                } else {
                    Err(ErrorKind::LabelsExhausted)
                },
            }
        },
        _ => Err(ErrorKind::UnsupportedOperator),
    }
}

/// Storing the value on the stack under `name`: into the slot of an
/// existing local, else into a new slot registered at the end of the
/// locals.
pub open spec fn store_code(sc: Scope, name: Seq<char>) -> Lowered {
    match lookup(sc.locals, name) {
        Some(i) => if fits_slot(i) {
            sc.emit(seq![SpecAsm::STORE(i as u32)])
        } else {
            Err(ErrorKind::OperandOutOfRange)
        },
        None => if fits_slot(sc.locals.len() as int) {
            Ok(
                Emitted {
                    code: seq![SpecAsm::STORE(sc.locals.len() as u32)],
                    locals: sc.locals.push(name),
                    globals: sc.globals,
                    next: sc.next,
                },
            )
        } else {
            Err(ErrorKind::OperandOutOfRange)
        },
    }
}

/// A struct declaration: the name takes a new global slot, and a
/// constructor is stored into it that builds a list of `fields - 1`
/// arguments and the struct's name.
pub open spec fn struct_code(sc: Scope, name: Seq<char>, fields: nat) -> Lowered {
    if !sc.has_labels(1) {
        Err(ErrorKind::LabelsExhausted)
    } else if fields >= 1 && fits_slot(fields - 1) && fits_slot(sc.globals.len() as int) {
        Ok(
            Emitted {
                code: seq![
                    SpecAsm::FUNCTION(sc.next),
                    SpecAsm::OFFSET((fields - 1) as u32, 0),
                    SpecAsm::STRING(name),
                    SpecAsm::LIST(fields as usize),
                    SpecAsm::RET(true),
                    SpecAsm::LABEL(sc.next),
                    SpecAsm::STOREGLOBAL(sc.globals.len() as u32),
                ],
                locals: sc.locals,
                globals: sc.globals.push(name),
                next: (sc.next + 1) as usize,
            },
        )
    } else {
        Err(ErrorKind::OperandOutOfRange)
    }
}

/// `break`: a jump to the exit label of the innermost enclosing loop.
pub open spec fn break_code(sc: Scope) -> Lowered {
    if sc.breaks.len() > 0 {
        sc.emit(seq![SpecAsm::JMP(sc.breaks.last())])
    } else {
        Err(ErrorKind::BreakOutsideLoop)
    }
}

/// A function declaration (`s` is a `Function`): the name takes a new
/// global slot; the body is lowered in a scope of its own whose locals
/// are the parameters, and spliced in between the arity record and the
/// function's label; the function is stored into the new slot. Only the
/// label counter comes back from the body.
pub open spec fn function_code(sc: Scope, s: Statement) -> Lowered
    decreases s, 0nat,
{
    match s {
        Statement::Function(_, name, params, body) => if sc.has_labels(1) {
            let declared = Scope { globals: sc.globals.push(name@), ..sc };
            match block_code(body_scope(declared, arg_names(params@)), body@, body@.len()) {
                Err(e) => Err(e),
                Ok(b) => if fits_slot(params@.len() as int) && fits_slot(
                    b.locals.len() - params@.len(),
                ) && fits_slot(sc.globals.len() as int) {
                    Ok(
                        Emitted {
                            code: seq![
                                SpecAsm::FUNCTION(sc.next),
                                SpecAsm::OFFSET(
                                    params@.len() as u32,
                                    (b.locals.len() - params@.len()) as u32,
                                ),
                            ] + b.code + seq![
                                SpecAsm::LABEL(sc.next),
                                SpecAsm::STOREGLOBAL(sc.globals.len() as u32),
                            ],
                            locals: sc.locals,
                            globals: declared.globals,
                            next: b.next,
                        },
                    )
                } else {
                    Err(ErrorKind::OperandOutOfRange)
                },
            }
        } else {
            Err(ErrorKind::LabelsExhausted)
        },
        _ => Err(ErrorKind::UnsupportedOperator),
    }
}

/// A conditional (`s` is an `If`): two fresh labels; the test; a jump to
/// the first label if it fails; the body; then either the first label,
/// or, with an alternative, a jump to the second label, the first label,
/// the alternative and the second label.
pub open spec fn if_code(sc: Scope, s: Statement) -> Lowered
    decreases s, 0nat,
{
    match s {
        Statement::If(_, test, body, alternative) => if sc.has_labels(2) {
            let otherwise = sc.next;
            let end = (sc.next + 1) as usize;
            let t = expr_code(sc.skip_labels(2), test);
            let b = block_code(sc.after(t), body@, body@.len());
            let taken = chain(followed_by(t, seq![SpecAsm::JUMPIFFALSE(otherwise)]), b);
            match alternative {
                None => followed_by(taken, seq![SpecAsm::LABEL(otherwise)]),
                Some(alt) => followed_by(
                    chain(
                        followed_by(taken, seq![SpecAsm::JMP(end), SpecAsm::LABEL(otherwise)]),
                        block_code(sc.after(taken), alt@, alt@.len()),
                    ),
                    seq![SpecAsm::LABEL(end)],
                ),
            }
        } else {
            Err(ErrorKind::LabelsExhausted)
        },
        _ => Err(ErrorKind::UnsupportedOperator),
    }
}

/// A while loop (`s` is a `While`): fresh labels for the top and the end;
/// the top label; the test; a jump to the end if it fails; the body, in
/// which `break` targets the end; a jump back to the top; the end label.
pub open spec fn while_code(sc: Scope, s: Statement) -> Lowered
    decreases s, 0nat,
{
    match s {
        Statement::While(test, body) => if sc.has_labels(2) {
            let top = sc.next;
            let end = (sc.next + 1) as usize;
            let inner = sc.skip_labels(2).in_loop(end);
            let t = expr_code(inner, test);
            let b = block_code(inner.after(t), body@, body@.len());
            followed_by(
                chain(
                    followed_by(
                        chain(sc.emit(seq![SpecAsm::LABEL(top)]), t),
                        seq![SpecAsm::JUMPIFFALSE(end)],
                    ),
                    b,
                ),
                seq![SpecAsm::BJMP(top), SpecAsm::LABEL(end)],
            )
        } else {
            Err(ErrorKind::LabelsExhausted)
        },
        _ => Err(ErrorKind::UnsupportedOperator),
    }
}

/// A for loop (`s` is a `For`): as a while loop, with the initialiser
/// lowered once before the top label and the step after the body.
pub open spec fn for_code(sc: Scope, s: Statement) -> Lowered
    decreases s, 0nat,
{
    match s {
        Statement::For(init, test, step, body) => if sc.has_labels(2) {
            let top = sc.next;
            let end = (sc.next + 1) as usize;
            let inner = sc.skip_labels(2).in_loop(end);
            let i = expr_code(inner, init);
            let t = expr_code(inner.after(i), test);
            let b = block_code(inner.after(t), body@, body@.len());
            let n = expr_code(inner.after(b), step);
            followed_by(
                chain(
                    chain(
                        followed_by(
                            chain(followed_by(i, seq![SpecAsm::LABEL(top)]), t),
                            seq![SpecAsm::JUMPIFFALSE(end)],
                        ),
                        b,
                    ),
                    n,
                ),
                seq![SpecAsm::BJMP(top), SpecAsm::LABEL(end)],
            )
        } else {
            Err(ErrorKind::LabelsExhausted)
        },
        _ => Err(ErrorKind::UnsupportedOperator),
    }
}

/// A statement.
pub open spec fn stmt_code(sc: Scope, s: Statement) -> Lowered
    decreases s, 1nat,
{
    match s {
        Statement::Pass => sc.emit(seq![]),
        Statement::Let(_, name, init) => {
            let v = expr_code(sc, init);
            chain(v, store_code(sc.after(v), name@))
        },
        Statement::Function(_, _, _, _) => function_code(sc, s),
        Statement::Struct(_, name, fields) => struct_code(sc, name@, fields@.len()),
        Statement::Return(t, value, _, _) => followed_by(
            expr_code(sc, value),
            seq![SpecAsm::RET(!(t is Void))],
        ),
        Statement::Expression(_, e) => expr_code(sc, e),
        Statement::If(_, _, _, _) => if_code(sc, s),
        Statement::While(_, _) => while_code(sc, s),
        Statement::For(_, _, _, _) => for_code(sc, s),
        Statement::Break => break_code(sc),
        Statement::Continue => Err(ErrorKind::ContinueUnsupported),
        Statement::Block(body) => block_code(sc, body@, body@.len()),
    }
}

/// The first `n` statements of a block, in order, sharing one scope.
pub open spec fn block_code(sc: Scope, block: Seq<Statement>, n: nat) -> Lowered
    decreases block, n,
{
    if n == 0 || n > block.len() {
        sc.emit(seq![])
    } else {
        let front = block_code(sc, block, (n - 1) as nat);
        chain(front, stmt_code(sc.after(front), block[n - 1]))
    }
}

/// The frame header of a finished unit: `ALLOCGLOBBALS` sized to the
/// globals if a global frame is asked for, then `ALLOCLOCALS` sized to
/// the locals if a local frame is asked for and the unit is not a function
/// body.
pub open spec fn frame_header(
    out: Emitted,
    alloc: bool,
    global: bool,
    function: bool,
) -> Result<Seq<SpecAsm>, ErrorKind> {
    let with_locals = alloc && !function;
    if (with_locals && !fits_slot(out.locals.len() as int)) || (global && !fits_slot(
        out.globals.len() as int,
    )) {
        Err(ErrorKind::OperandOutOfRange)
    } else {
        Ok(
            (if global {
                seq![SpecAsm::ALLOCGLOBBALS(out.globals.len() as u32)]
            } else {
                seq![]
            }) + (if with_locals {
                seq![SpecAsm::ALLOCLOCALS(out.locals.len() as u32)]
            } else {
                seq![]
            }),
        )
    }
}

/// A whole unit compiled onto the instructions `before`: the frame header,
/// then `before`, then the statements, then the terminator `RET(false)`.
pub open spec fn program_code(
    before: Seq<SpecAsm>,
    sc: Scope,
    program: Seq<Statement>,
    alloc: bool,
    global: bool,
    function: bool,
) -> Lowered {
    match block_code(sc, program, program.len()) {
        Err(e) => Err(e),
        Ok(out) => match frame_header(out, alloc, global, function) {
            Err(e) => Err(e),
            Ok(header) => Ok(
                Emitted {
                    code: header + before + out.code + seq![SpecAsm::RET(false)],
                    locals: out.locals,
                    globals: out.globals,
                    next: out.next,
                },
            ),
        },
    }
}

} // verus!
