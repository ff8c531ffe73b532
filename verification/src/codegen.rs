//! The code generator: a compilation context and the functions that lower
//! statements, expressions and assignment targets into it.

use vstd::prelude::*;
use vstd::string::StringExecFns;
use crate::code::{
    group_listing_grows, lemma_listing_concat, lemma_listing_push, listing, Asm, SpecAsm,
};
use crate::error::{ErrorKind, NovaError};
use crate::frame::{
    lemma_block_failure_stays, lemma_block_frame, lemma_captures_failure_stays,
    lemma_exprs_failure_stays,
};
use crate::gen::Gen;
use crate::lowering::{
    arg_names, assignment_code, atom_code, binop_code, block_code, break_code, callee_code,
    captures_code, chain, closure_code, compound_code, expr_code, exprs_code, fits_slot,
    followed_by, followed_by_op, for_code, function_code, if_code, local_ref_code, local_value_code,
    name_code, operands_code, ordered_or_equal_code, program_code, ref_atom_code, ref_code,
    ref_index_code, short_circuit_code, short_circuit_test, stmt_code, store_code, struct_code,
    typed_op, while_code, Emitted, Lowered, Scope,
};
use crate::nodes::{Arg, Ast, Atom, Expr, Statement};
use crate::table::{names, Table};
use crate::tokens::{Numeric, Operator, Unary};

verus! {

broadcast use group_listing_grows;

/// A compilation context: five symbol tables, the instructions emitted so
/// far, the label generator and the exit labels of the loops being
/// compiled, innermost last.
#[derive(Clone, Debug)]
pub struct Compiler {
    pub bindings: Table,
    pub global: Table,
    pub variables: Table,
    pub upvalues: Table,
    pub native_functions: Table,
    pub output: Vec<u8>,
    pub filepath: String,
    pub entry: usize,
    pub code: Vec<Asm>,
    pub gen: Gen,
    pub breaks: Vec<usize>,
}

/// The mathematical view of a compilation context.
#[verifier::ext_equal]
pub struct CompilerView {
    pub bindings: Seq<Seq<char>>,
    pub global: Seq<Seq<char>>,
    pub variables: Seq<Seq<char>>,
    pub upvalues: Seq<Seq<char>>,
    pub native_functions: Seq<Seq<char>>,
    pub output: Seq<u8>,
    pub filepath: Seq<char>,
    pub entry: usize,
    pub code: Seq<SpecAsm>,
    pub next_label: usize,
    pub breaks: Seq<usize>,
}

impl CompilerView {
    /// What a lowering reads of this context.
    pub open spec fn scope(self) -> Scope {
        Scope {
            locals: self.variables,
            globals: self.global,
            natives: self.native_functions,
            breaks: self.breaks,
            next: self.next_label,
        }
    }

    /// This context once `out` has been emitted into it: the instructions
    /// are appended, the locals, the globals and the label counter are
    /// those of `out`, and nothing else changes.
    pub open spec fn advance(self, out: Emitted) -> CompilerView {
        CompilerView {
            code: self.code + out.code,
            variables: out.locals,
            global: out.globals,
            next_label: out.next,
            ..self
        }
    }

    /// This context with one more instruction.
    pub open spec fn pushed(self, op: SpecAsm) -> CompilerView {
        CompilerView { code: self.code.push(op), ..self }
    }

    /// This context with more instructions.
    pub open spec fn extended(self, code: Seq<SpecAsm>) -> CompilerView {
        CompilerView { code: self.code + code, ..self }
    }

    /// This context inside a loop that took the next two label ids, the
    /// second of which is its exit.
    pub open spec fn in_loop(self) -> CompilerView {
        CompilerView {
            breaks: self.breaks.push((self.next_label + 1) as usize),
            next_label: (self.next_label + 2) as usize,
            ..self
        }
    }

    /// Whether this context holds what `before` held and maybe more after
    /// it: the instructions, the locals, the globals and the loop exits of
    /// `before` stand where they stood, and the label counter is no
    /// lower.
    pub open spec fn grown_from(self, before: CompilerView) -> bool {
        &&& before.code.is_prefix_of(self.code)
        &&& before.variables.is_prefix_of(self.variables)
        &&& before.global.is_prefix_of(self.global)
        &&& before.breaks.is_prefix_of(self.breaks)
        &&& before.next_label <= self.next_label
    }

    /// Whether this context holds what `before` held of everything that no
    /// lowering touches: the bindings, the captured-name table, the native
    /// functions, the byte output, the file path and the entry.
    pub open spec fn keeps_surroundings(self, before: CompilerView) -> bool {
        &&& self.bindings == before.bindings
        &&& self.upvalues == before.upvalues
        &&& self.native_functions == before.native_functions
        &&& self.output == before.output
        &&& self.filepath == before.filepath
        &&& self.entry == before.entry
    }
}

impl View for Compiler {
    type V = CompilerView;

    open spec fn view(&self) -> CompilerView {
        CompilerView {
            bindings: self.bindings@,
            global: self.global@,
            variables: self.variables@,
            upvalues: self.upvalues@,
            native_functions: self.native_functions@,
            output: self.output@,
            filepath: self.filepath@,
            entry: self.entry,
            code: listing(self.code@),
            next_label: self.gen.peek(),
            breaks: self.breaks@,
        }
    }
}

/// How a call that lowers something ends: on success the context has
/// advanced by exactly what `wanted` gives; on failure `wanted` fails for
/// the reported reason, the diagnostic names the file being compiled, and
/// the context is left as it stood when the failure was found. Either
/// way nothing is taken back: the instructions, the locals, the globals
/// and the loop exits that were there stay in front, the label counter is
/// no lower, and the surroundings are untouched.
pub open spec fn lowered(
    before: CompilerView,
    wanted: Lowered,
    after: CompilerView,
    r: Result<(), NovaError>,
) -> bool {
    match r {
        Ok(()) => wanted matches Ok(out) && after == before.advance(out) && after.grown_from(
            before,
        ),
        Err(e) => {
            &&& wanted == Err::<Emitted, ErrorKind>(e.kind)
            &&& e.filepath@ == before.filepath
            &&& after.keeps_surroundings(before)
            &&& after.grown_from(before)
        },
    }
}

/// How a call that lowers an expression or an assignment target ends: as
/// every lowering does, and whether it succeeds or fails, the locals, the
/// globals and the loop exits are what they were.
pub open spec fn lowered_value(
    before: CompilerView,
    wanted: Lowered,
    after: CompilerView,
    r: Result<(), NovaError>,
) -> bool {
    &&& lowered(before, wanted, after, r)
    &&& after.variables == before.variables
    &&& after.global == before.global
    &&& after.breaks == before.breaks
}

/// How a call ends that finds out whether it fails before it emits
/// anything: as every lowering does, and on failure the context is
/// untouched.
pub open spec fn lowered_in_place(
    before: CompilerView,
    wanted: Lowered,
    after: CompilerView,
    r: Result<(), NovaError>,
) -> bool {
    &&& lowered(before, wanted, after, r)
    &&& r is Err ==> after == before
}

/// A fresh compilation context: all tables empty, no instructions, labels
/// starting at zero, no enclosing loop.
pub fn new() -> (c: Compiler)
    ensures
        c@ == (CompilerView {
            bindings: Seq::empty(),
            global: Seq::empty(),
            variables: Seq::empty(),
            upvalues: Seq::empty(),
            native_functions: Seq::empty(),
            output: Seq::empty(),
            filepath: Seq::empty(),
            entry: 0,
            code: Seq::empty(),
            next_label: 0,
            breaks: Seq::empty(),
        }),
{
    let c = Compiler {
        native_functions: Table::new(),
        variables: Table::new(),
        output: Vec::new(),
        filepath: String::new(),
        upvalues: Table::new(),
        global: Table::new(),
        entry: 0,
        bindings: Table::new(),
        code: Vec::new(),
        gen: Gen::new(),
        breaks: Vec::new(),
    };
    assert(c@.code =~= Seq::empty());
    c
}

impl Compiler {
    /// Empties the byte output.
    pub fn clear(&mut self)
        ensures
            final(self)@ == (CompilerView { output: Seq::empty(), ..old(self)@ }),
    {
        self.output.clear()
    }

    /// The label id of the program's entry.
    pub fn get_entry(&self) -> (entry: usize)
        ensures
            entry == self@.entry,
    {
        self.entry
    }

    /// Appends one instruction.
    fn emit(&mut self, op: Asm)
        ensures
            final(self)@ == old(self)@.pushed(op@),
    {
        proof {
            lemma_listing_push(self.code@, op);
        }
        self.code.push(op);
    }

    /// A diagnostic of the given kind for the file being compiled.
    fn error(&self, kind: ErrorKind) -> (e: NovaError)
        ensures
            e.kind == kind,
            e.filepath@ == self@.filepath,
    {
        NovaError { kind, filepath: self.filepath.clone() }
    }

    /// Issues a label id, if one is left.
    fn fresh_label(&mut self) -> (r: Result<usize, NovaError>)
        ensures
            match r {
                Ok(label) => {
                    &&& old(self)@.scope().has_labels(1)
                    &&& label == old(self)@.next_label
                    &&& final(self)@ == (CompilerView {
                        next_label: (label + 1) as usize,
                        ..old(self)@
                    })
                },
                Err(e) => {
                    &&& !old(self)@.scope().has_labels(1)
                    &&& e.kind == ErrorKind::LabelsExhausted
                    &&& e.filepath@ == old(self)@.filepath
                    &&& final(self)@ == old(self)@
                },
            },
    {
        if self.gen.is_exhausted() {
            Err(self.error(ErrorKind::LabelsExhausted))
        } else {
            Ok(self.gen.generate())
        }
    }

    /// A slot, count or index as a 32-bit operand, if it fits.
    fn operand(&self, i: usize) -> (r: Result<u32, NovaError>)
        ensures
            match r {
                Ok(slot) => fits_slot(i as int) && slot == i,
                Err(e) => {
                    &&& !fits_slot(i as int)
                    &&& e.kind == ErrorKind::OperandOutOfRange
                    &&& e.filepath@ == self@.filepath
                },
            },
    {
        if i > u32::MAX as usize {
            Err(self.error(ErrorKind::OperandOutOfRange))
        } else {
            Ok(i as u32)
        }
    }

    /// Pushes a reference to the local `name`.
    fn local_ref(&mut self, name: &String) -> (r: Result<(), NovaError>)
        ensures
            lowered_in_place(
                old(self)@,
                local_ref_code(old(self)@.scope(), name@),
                final(self)@,
                r,
            ),
    {
        match self.variables.get_index(name) {
            Some(index) => {
                let slot = self.operand(index)?;
                self.emit(Asm::STACKREF(slot));
                assert(self@.code =~= old(self)@.code
                    + local_ref_code(old(self)@.scope(), name@).unwrap().code);
                Ok(())
            },
            None => Err(self.error(ErrorKind::UnresolvedIdentifier)),
        }
    }

    /// Lowers an atom used as an assignment target: an identifier bound to
    /// a local becomes a reference to its slot, and nothing else is a
    /// target. On failure the context is untouched.
    pub fn getref_atom(&mut self, atom: &Atom) -> (r: Result<(), NovaError>)
        ensures
            lowered_in_place(old(self)@, ref_atom_code(old(self)@.scope(), *atom), final(self)@, r),
    {
        match atom {
            Atom::Id(identifier) => self.local_ref(identifier),
            _ => Err(self.error(ErrorKind::UnsupportedAssignmentTarget)),
        }
    }

    /// Fetches the value of the local `name`.
    fn fetch_local(&mut self, name: &String) -> (r: Result<(), NovaError>)
        ensures
            lowered_in_place(
                old(self)@,
                local_value_code(old(self)@.scope(), name@),
                final(self)@,
                r,
            ),
    {
        match self.variables.get_index(name) {
            Some(index) => {
                let slot = self.operand(index)?;
                self.emit(Asm::GET(slot));
                assert(self@.code =~= old(self)@.code
                    + local_value_code(old(self)@.scope(), name@).unwrap().code);
                Ok(())
            },
            None => Err(self.error(ErrorKind::UnresolvedIdentifier)),
        }
    }

    /// Pushes the index of an indexed assignment target: the value of a
    /// local, or an integer literal.
    fn getref_index(&mut self, index: &Expr) -> (r: Result<(), NovaError>)
        ensures
            lowered_in_place(
                old(self)@,
                ref_index_code(old(self)@.scope(), *index),
                final(self)@,
                r,
            ),
    {
        match index {
            Expr::Literal(_, Atom::Id(identifier)) => self.fetch_local(identifier),
            Expr::Literal(_, Atom::Integer(n)) => {
                self.emit(Asm::INTEGER(*n));
                assert(self@.code =~= old(self)@.code
                    + ref_index_code(old(self)@.scope(), *index).unwrap().code);
                Ok(())
            },
            _ => Err(self.error(ErrorKind::UnsupportedAssignmentTarget)),
        }
    }

    /// Lowers an expression used as an assignment target to instructions
    /// that push a reference: a local; a field of a target; an element of
    /// a target whose index is a local or an integer literal. Every other
    /// form is refused as an unsupported assignment target. On failure
    /// what was emitted before the failure stays, after the instructions
    /// that were there; the locals, globals and loop exits are never
    /// touched.
    pub fn getref_expr(&mut self, expr: &Expr) -> (r: Result<(), NovaError>)
        ensures
            lowered_value(old(self)@, ref_code(old(self)@.scope(), *expr), final(self)@, r),
        decreases expr,
    {
        match expr {
            Expr::Field(_, _, index, from) => {
                if *index as u64 > i64::MAX as u64 {
                    return Err(self.error(ErrorKind::OperandOutOfRange));
                }
                self.emit(Asm::INTEGER(*index as i64));
                self.getref_expr(from)?;
                self.emit(Asm::PIN);
                assert(self@.code =~= old(self)@.code
                    + ref_code(old(self)@.scope(), *expr).unwrap().code);
                Ok(())
            },
            Expr::Indexed(_, _, index, from) => {
                self.getref_index(index)?;
                self.getref_expr(from)?;
                self.emit(Asm::PIN);
                assert(self@.code =~= old(self)@.code
                    + ref_code(old(self)@.scope(), *expr).unwrap().code);
                Ok(())
            },
            Expr::Literal(_, atom) => self.getref_atom(atom),
            _ => Err(self.error(ErrorKind::UnsupportedAssignmentTarget)),
        }
    }
}

/// Whether `name` is spelled `text`.
fn spelled(name: &String, text: &str) -> (b: bool)
    ensures
        b == (name@ == text@),
{
    let other = String::from_str(text);
    *name == other
}

/// A copy of a list of label ids.
fn copy_labels(labels: &Vec<usize>) -> (copy: Vec<usize>)
    ensures
        copy@ == labels@,
{
    let mut copy: Vec<usize> = Vec::new();
    let mut i: usize = 0;
    while i < labels.len()
        invariant
            i <= labels.len(),
            copy@ == labels@.subrange(0, i as int),
        decreases labels.len() - i,
    {
        copy.push(labels[i]);
        i = i + 1;
    }
    assert(copy@ =~= labels@);
    copy
}

/// A copy of a list of bytes.
fn copy_bytes(bytes: &Vec<u8>) -> (copy: Vec<u8>)
    ensures
        copy@ == bytes@,
{
    let mut copy: Vec<u8> = Vec::new();
    let mut i: usize = 0;
    while i < bytes.len()
        invariant
            i <= bytes.len(),
            copy@ == bytes@.subrange(0, i as int),
        decreases bytes.len() - i,
    {
        copy.push(bytes[i]);
        i = i + 1;
    }
    assert(copy@ =~= bytes@);
    copy
}

/// The locals that a function or closure body starts with: its parameters
/// in order, then the captured names in order.
fn seed_locals(params: &Vec<Arg>, captured: &Vec<String>) -> (locals: Table)
    ensures
        locals@ == arg_names(params@) + names(captured@),
{
    let mut locals = Table::new();
    let mut i: usize = 0;
    while i < params.len()
        invariant
            i <= params.len(),
            locals@ == arg_names(params@).subrange(0, i as int),
        decreases params.len() - i,
    {
        locals.insert(params[i].identifier.clone());
        i = i + 1;
        assert(locals@ =~= arg_names(params@).subrange(0, i as int));
    }
    let mut j: usize = 0;
    while j < captured.len()
        invariant
            j <= captured.len(),
            locals@ == arg_names(params@) + names(captured@).subrange(0, j as int),
        decreases captured.len() - j,
    {
        locals.insert(captured[j].clone());
        j = j + 1;
        assert(locals@ =~= arg_names(params@) + names(captured@).subrange(0, j as int));
    }
    assert(locals@ =~= arg_names(params@) + names(captured@));
    locals
}

impl Compiler {
    /// The isolated context of a nested function or closure body: a copy
    /// of this one with the given locals and no instructions.
    fn child(&self, locals: Table) -> (c: Compiler)
        ensures
            c@ == (CompilerView { variables: locals@, code: Seq::empty(), ..self@ }),
    {
        let c = Compiler {
            bindings: self.bindings.duplicate(),
            global: self.global.duplicate(),
            variables: locals,
            upvalues: self.upvalues.duplicate(),
            native_functions: self.native_functions.duplicate(),
            output: copy_bytes(&self.output),
            filepath: self.filepath.clone(),
            entry: self.entry,
            code: Vec::new(),
            gen: self.gen,
            breaks: copy_labels(&self.breaks),
        };
        assert(c@ =~= (CompilerView { variables: locals@, code: Seq::empty(), ..self@ }));
        c
    }

    /// Takes over what a finished child context produced: its instructions
    /// are appended, and its label counter replaces this one.
    fn splice(&mut self, child: Compiler)
        ensures
            final(self)@ == (CompilerView {
                code: old(self)@.code + child@.code,
                next_label: child@.next_label,
                ..old(self)@
            }),
    {
        let mut child = child;
        proof {
            lemma_listing_concat(self.code@, child.code@);
        }
        self.gen = child.gen;
        self.code.append(&mut child.code);
    }

    /// The instruction of an arithmetic or relational operator for the
    /// numeric class of its left operand.
    fn typed_instruction(&self, op: Operator, class: Numeric) -> (r: Result<Asm, NovaError>)
        ensures
            match r {
                Ok(i) => typed_op(op, class) == Ok::<SpecAsm, ErrorKind>(i@),
                Err(e) => typed_op(op, class) == Err::<SpecAsm, ErrorKind>(e.kind) && e.filepath@
                    == self@.filepath,
            },
    {
        match class {
            Numeric::Other => Err(self.error(ErrorKind::NonNumericOperand)),
            Numeric::Int => match op {
                Operator::Addition | Operator::AdditionAssignment => Ok(Asm::IADD),
                Operator::Subtraction | Operator::SubtractionAssignment => Ok(Asm::ISUB),
                Operator::Multiplication => Ok(Asm::IMUL),
                Operator::Division => Ok(Asm::IDIV),
                Operator::Modulo => Ok(Asm::IMODULO),
                Operator::GreaterThan | Operator::GtrOrEqu => Ok(Asm::IGTR),
                Operator::LessThan | Operator::LssOrEqu => Ok(Asm::ILSS),
                _ => Err(self.error(ErrorKind::UnsupportedOperator)),
            },
            Numeric::Float => match op {
                Operator::Addition | Operator::AdditionAssignment => Ok(Asm::FADD),
                Operator::Subtraction | Operator::SubtractionAssignment => Ok(Asm::FSUB),
                Operator::Multiplication => Ok(Asm::FMUL),
                Operator::Division => Ok(Asm::FDIV),
                Operator::Modulo => Ok(Asm::FMODULO),
                Operator::GreaterThan | Operator::GtrOrEqu => Ok(Asm::FGTR),
                Operator::LessThan | Operator::LssOrEqu => Ok(Asm::FLSS),
                _ => Err(self.error(ErrorKind::UnsupportedOperator)),
            },
        }
    }

    /// Fetches the value of an identifier: a local first, else a global.
    fn fetch(&mut self, name: &String) -> (r: Result<(), NovaError>)
        ensures
            lowered_in_place(old(self)@, name_code(old(self)@.scope(), name@), final(self)@, r),
    {
        match self.variables.get_index(name) {
            Some(index) => {
                let slot = self.operand(index)?;
                self.emit(Asm::GET(slot));
            },
            None => match self.global.get_index(name) {
                Some(index) => {
                    let slot = self.operand(index)?;
                    self.emit(Asm::GETGLOBAL(slot));
                },
                None => {
                    return Err(self.error(ErrorKind::UnresolvedIdentifier));
                },
            },
        }
        assert(self@.code =~= old(self)@.code + name_code(old(self)@.scope(), name@).unwrap().code);
        Ok(())
    }

    /// Calls `name` with the arguments that are on the stack.
    fn call(&mut self, name: &String) -> (r: Result<(), NovaError>)
        ensures
            lowered_in_place(old(self)@, callee_code(old(self)@.scope(), name@), final(self)@, r),
    {
        if spelled(name, "print") || spelled(name, "super::print") {
            self.emit(Asm::PRINT);
        } else if spelled(name, "free") || spelled(name, "super::free") {
            self.emit(Asm::FREE);
        } else if spelled(name, "clone") || spelled(name, "super::clone") {
            self.emit(Asm::CLONE);
        } else {
            match self.native_functions.get_index(name) {
                Some(index) => {
                    self.emit(Asm::NATIVE(index));
                },
                None => match self.variables.get_index(name) {
                    Some(index) => {
                        let slot = self.operand(index)?;
                        self.emit(Asm::GET(slot));
                        self.emit(Asm::CALL);
                    },
                    None => match self.global.get_index(name) {
                        Some(index) => {
                            let slot = self.operand(index)?;
                            self.emit(Asm::DCALL(slot));
                        },
                        None => {
                            return Err(self.error(ErrorKind::UnresolvedIdentifier));
                        },
                    },
                },
            }
        }
        assert(self@.code =~= old(self)@.code
            + callee_code(old(self)@.scope(), name@).unwrap().code);
        Ok(())
    }

    /// Fetches the captured names from the locals, in declaration order.
    fn fetch_captures(&mut self, captured: &Vec<String>) -> (r: Result<(), NovaError>)
        ensures
            lowered_value(
                old(self)@,
                captures_code(old(self)@.scope(), captured@, captured@.len()),
                final(self)@,
                r,
            ),
    {
        let ghost sc = self@.scope();
        let mut i: usize = 0;
        assert(self@.code =~= old(self)@.code + captures_code(sc, captured@, 0).unwrap().code);
        while i < captured.len()
            invariant
                i <= captured.len(),
                sc == old(self)@.scope(),
                captures_code(sc, captured@, i as nat) is Ok,
                self@ == old(self)@.advance(captures_code(sc, captured@, i as nat).unwrap()),
                self@.grown_from(old(self)@),
                self@.variables == old(self)@.variables,
                self@.global == old(self)@.global,
            decreases captured.len() - i,
        {
            let ghost full = captures_code(sc, captured@, (i + 1) as nat);
            assert(self@.scope() =~= sc);
            match self.fetch_local(&captured[i]) {
                Ok(()) => {},
                Err(e) => {
                    proof {
                        lemma_captures_failure_stays(
                            sc,
                            captured@,
                            (i + 1) as nat,
                            captured@.len(),
                        );
                    }
                    return Err(e);
                },
            }
            assert(self@.code =~= old(self)@.code + full.unwrap().code);
            i = i + 1;
        }
        Ok(())
    }

    /// Lowers an atom in value position: a literal becomes one push; an
    /// identifier is fetched from the locals, else from the globals; a
    /// call lowers its arguments left to right and then the callee. A
    /// callee that resolves nowhere fails before any call instruction is
    /// emitted: the context then holds the instructions of the arguments
    /// and nothing after them. An atom that is no call fails with the
    /// context untouched. The locals, globals and loop exits are never
    /// touched.
    pub fn compile_atom(&mut self, atom: &Atom) -> (r: Result<(), NovaError>)
        ensures
            lowered_value(old(self)@, atom_code(old(self)@.scope(), *atom), final(self)@, r),
            r is Err ==> match *atom {
                Atom::Call(_, args) => exprs_code(
                    old(self)@.scope(),
                    args@,
                    args@.len(),
                ) matches Ok(lowered_args) ==> final(self)@ == old(self)@.advance(lowered_args),
                _ => final(self)@ == old(self)@,
            },
        decreases atom, 0nat,
    {
        match atom {
            Atom::Bool(b) => {
                self.emit(Asm::BOOL(*b));
            },
            Atom::Id(identifier) => {
                return self.fetch(identifier);
            },
            Atom::Float(bits) => {
                self.emit(Asm::FLOAT(*bits));
            },
            Atom::String(text) => {
                self.emit(Asm::STRING(text.clone()));
            },
            Atom::Integer(n) => {
                self.emit(Asm::INTEGER(*n));
            },
            Atom::Call(caller, list) => {
                self.compile_exprs(list)?;
                self.call(caller)?;
            },
        }
        assert(self@.code =~= old(self)@.code + atom_code(old(self)@.scope(), *atom).unwrap().code);
        Ok(())
    }

    /// Lowers the expressions of a list, left to right.
    fn compile_exprs(&mut self, list: &Vec<Expr>) -> (r: Result<(), NovaError>)
        ensures
            lowered_value(
                old(self)@,
                exprs_code(old(self)@.scope(), list@, list@.len()),
                final(self)@,
                r,
            ),
        decreases list, 0nat,
    {
        let ghost sc = self@.scope();
        let mut i: usize = 0;
        assert(self@.code =~= old(self)@.code + exprs_code(sc, list@, 0).unwrap().code);
        while i < list.len()
            invariant
                i <= list.len(),
                sc == old(self)@.scope(),
                exprs_code(sc, list@, i as nat) is Ok,
                self@ == old(self)@.advance(exprs_code(sc, list@, i as nat).unwrap()),
                self@.grown_from(old(self)@),
                self@.variables == old(self)@.variables,
                self@.global == old(self)@.global,
            decreases list.len() - i,
        {
            let ghost front = exprs_code(sc, list@, i as nat);
            let ghost full = exprs_code(sc, list@, (i + 1) as nat);
            assert(self@.scope() =~= sc.after(front));
            match self.compile_expr(&list[i]) {
                Ok(()) => {},
                Err(e) => {
                    proof {
                        lemma_exprs_failure_stays(sc, list@, (i + 1) as nat, list@.len());
                    }
                    return Err(e);
                },
            }
            assert(self@.code =~= old(self)@.code + full.unwrap().code);
            i = i + 1;
        }
        Ok(())
    }

    /// Lowers an expression in value position. Operands are lowered left
    /// to right; the instruction of an arithmetic or relational operator
    /// is chosen by the type of its left operand; `&&`, `||`, `>=` and `<=`
    /// branch over a fresh label; a closure body is lowered in a context
    /// of its own and spliced in. Instructions are only appended, also on
    /// failure, and the locals, globals and loop exits are never touched.
    pub fn compile_expr(&mut self, expr: &Expr) -> (r: Result<(), NovaError>)
        ensures
            lowered_value(old(self)@, expr_code(old(self)@.scope(), *expr), final(self)@, r),
        decreases expr, 4nat,
    {
        match expr {
            Expr::Empty => {},
            Expr::ListConstructor(_, list) => {
                self.compile_exprs(list)?;
                self.emit(Asm::LIST(list.len()));
            },
            Expr::Field(_, _, index, field) => {
                if *index as u64 > i64::MAX as u64 {
                    return Err(self.error(ErrorKind::OperandOutOfRange));
                }
                self.emit(Asm::INTEGER(*index as i64));
                self.compile_expr(field)?;
                self.emit(Asm::LIN);
            },
            Expr::Indexed(_, _, index, from) => {
                self.compile_expr(index)?;
                self.compile_expr(from)?;
                self.emit(Asm::LIN);
            },
            Expr::Call(_, _, from, arg) => {
                self.compile_exprs(arg)?;
                self.getref_expr(from)?;
                self.emit(Asm::CALL);
            },
            Expr::Unary(_, unary, operand) => match unary {
                Unary::Positive => {
                    return Err(self.error(ErrorKind::UnaryPositive));
                },
                Unary::Negitive => {
                    self.compile_expr(operand)?;
                    self.emit(Asm::NEG);
                },
                Unary::Not => {
                    self.compile_expr(operand)?;
                    self.emit(Asm::NOT);
                },
            },
            Expr::Binop(_, _, _, _) => {
                return self.compile_binop(expr);
            },
            Expr::Literal(_, atom) => {
                return self.compile_atom(atom);
            },
            Expr::Closure(_, _, _, _) => {
                return self.compile_closure(expr);
            },
        }
        assert(self@.code =~= old(self)@.code + expr_code(old(self)@.scope(), *expr).unwrap().code);
        Ok(())
    }

    /// Lowers an infix operation.
    fn compile_binop(&mut self, expr: &Expr) -> (r: Result<(), NovaError>)
        requires
            *expr is Binop,
        ensures
            lowered_value(old(self)@, binop_code(old(self)@.scope(), *expr), final(self)@, r),
        decreases expr, 3nat,
    {
        match expr {
            Expr::Binop(_, operator, _, _) => match operator {
                Operator::Addition
                | Operator::Subtraction
                | Operator::Multiplication
                | Operator::Division
                | Operator::Modulo
                | Operator::GreaterThan
                | Operator::LessThan
                | Operator::Equality
                | Operator::NotEqual
                | Operator::Not => self.compile_operands(expr),
                Operator::Assignment => self.compile_assignment(expr),
                Operator::AdditionAssignment
                | Operator::SubtractionAssignment => self.compile_compound(expr),
                Operator::GtrOrEqu | Operator::LssOrEqu => self.compile_ordered_or_equal(expr),
                Operator::And | Operator::Or => self.compile_short_circuit(expr),
                Operator::RightArrow
                | Operator::Access
                | Operator::ListAccess
                | Operator::Call
                | Operator::DoubleColon
                | Operator::Colon => Err(self.error(ErrorKind::UnsupportedOperator)),
            },
            _ => Ok(()),
        }
    }

    /// Lowers both operands of an infix operation, the left one first.
    fn compile_both(&mut self, expr: &Expr) -> (r: Result<(), NovaError>)
        requires
            *expr is Binop,
        ensures
            expr matches Expr::Binop(_, _, lhs, rhs) && lowered_value(
                old(self)@,
                chain(
                    expr_code(old(self)@.scope(), **lhs),
                    expr_code(
                        old(self)@.scope().after(expr_code(old(self)@.scope(), **lhs)),
                        **rhs,
                    ),
                ),
                final(self)@,
                r,
            ),
        decreases expr, 0nat,
    {
        match expr {
            Expr::Binop(_, _, lhs, rhs) => {
                let ghost sc = self@.scope();
                let ghost left = expr_code(sc, **lhs);
                let ghost right = expr_code(sc.after(left), **rhs);
                self.compile_expr(lhs)?;
                self.compile_expr(rhs)?;
                assert(self@.code =~= old(self)@.code + chain(left, right).unwrap().code);
            },
            _ => {},
        }
        Ok(())
    }

    /// Emits the test between the operands of `&&` or `||`.
    fn emit_guard(&mut self, operator: &Operator, label: usize)
        ensures
            final(self)@ == old(self)@.extended(short_circuit_test(*operator, label)),
    {
        self.emit(Asm::DUP);
        match operator {
            Operator::Or => {
                self.emit(Asm::NOT);
            },
            _ => {},
        }
        self.emit(Asm::JUMPIFFALSE(label));
        self.emit(Asm::POP);
        assert(self@.code =~= old(self)@.code + short_circuit_test(*operator, label));
    }

    /// Emits the test after the strict comparison of `>=` or `<=`.
    fn emit_retest(&mut self, label: usize)
        ensures
            final(self)@ == old(self)@.extended(
                seq![SpecAsm::DUP, SpecAsm::NOT, SpecAsm::JUMPIFFALSE(label), SpecAsm::POP],
            ),
    {
        self.emit(Asm::DUP);
        self.emit(Asm::NOT);
        self.emit(Asm::JUMPIFFALSE(label));
        self.emit(Asm::POP);
        assert(self@.code =~= old(self)@.code + seq![
            SpecAsm::DUP,
            SpecAsm::NOT,
            SpecAsm::JUMPIFFALSE(label),
            SpecAsm::POP,
        ]);
    }

    /// Takes the labels of a loop's top and end, and makes the end the
    /// target of `break`.
    fn enter_loop(&mut self) -> (r: Result<(usize, usize), NovaError>)
        ensures
            match r {
                Ok((top, end)) => {
                    &&& old(self)@.scope().has_labels(2)
                    &&& top == old(self)@.next_label
                    &&& end == top + 1
                    &&& final(self)@ == old(self)@.in_loop()
                },
                Err(e) => {
                    &&& !old(self)@.scope().has_labels(2)
                    &&& e.kind == ErrorKind::LabelsExhausted
                    &&& e.filepath@ == old(self)@.filepath
                    &&& final(self)@.keeps_surroundings(old(self)@)
                    &&& final(self)@.code == old(self)@.code
                    &&& final(self)@.grown_from(old(self)@)
                },
            },
    {
        let top = self.fresh_label()?;
        let end = self.fresh_label()?;
        self.breaks.push(end);
        Ok((top, end))
    }

    /// Closes a loop: the jump back to its top, its end label, and the
    /// `break` target of the enclosing loop again.
    fn leave_loop(&mut self, top: usize, end: usize)
        requires
            old(self)@.breaks.len() > 0,
        ensures
            final(self)@ == (CompilerView {
                breaks: old(self)@.breaks.drop_last(),
                ..old(self)@.extended(seq![SpecAsm::BJMP(top), SpecAsm::LABEL(end)])
            }),
    {
        self.emit(Asm::BJMP(top));
        self.emit(Asm::LABEL(end));
        self.breaks.pop();
        assert(self@.code =~= old(self)@.code + seq![SpecAsm::BJMP(top), SpecAsm::LABEL(end)]);
        assert(self@.breaks =~= old(self)@.breaks.drop_last());
    }

    /// Lowers an operator on two values: both operands, then the operator.
    fn compile_operands(&mut self, expr: &Expr) -> (r: Result<(), NovaError>)
        requires
            *expr is Binop,
        ensures
            lowered_value(old(self)@, operands_code(old(self)@.scope(), *expr), final(self)@, r),
        decreases expr, 1nat,
    {
        self.compile_both(expr)?;
        match expr {
            Expr::Binop(_, operator, lhs, _) => {
                match operator {
                    Operator::Equality => {
                        self.emit(Asm::EQUALS);
                    },
                    Operator::NotEqual => {
                        self.emit(Asm::EQUALS);
                        self.emit(Asm::NOT);
                    },
                    Operator::Not => {
                        self.emit(Asm::NOT);
                    },
                    _ => {
                        let op = self.typed_instruction(*operator, lhs.numeric_kind())?;
                        self.emit(op);
                    },
                }
            },
            _ => {},
        }
        assert(self@.code =~= old(self)@.code + operands_code(
            old(self)@.scope(),
            *expr,
        ).unwrap().code);
        Ok(())
    }

    /// Lowers an assignment: the value first, then the target.
    fn compile_assignment(&mut self, expr: &Expr) -> (r: Result<(), NovaError>)
        requires
            *expr is Binop,
        ensures
            lowered_value(old(self)@, assignment_code(old(self)@.scope(), *expr), final(self)@, r),
        decreases expr, 0nat,
    {
        match expr {
            Expr::Binop(_, _, lhs, rhs) => {
                self.compile_expr(rhs)?;
                self.getref_expr(lhs)?;
                self.emit(Asm::ASSIGN);
            },
            _ => {},
        }
        assert(self@.code =~= old(self)@.code
            + assignment_code(old(self)@.scope(), *expr).unwrap().code);
        Ok(())
    }

    /// Lowers `+=` or `-=`.
    fn compile_compound(&mut self, expr: &Expr) -> (r: Result<(), NovaError>)
        requires
            *expr is Binop,
        ensures
            lowered_value(old(self)@, compound_code(old(self)@.scope(), *expr), final(self)@, r),
        decreases expr, 0nat,
    {
        match expr {
            Expr::Binop(_, operator, lhs, rhs) => {
                let ghost base = self@;
                let ghost sc = base.scope();
                let ghost right = expr_code(sc, **rhs);
                let ghost left = expr_code(sc.after(right), **lhs);
                let ghost value = followed_by_op(
                    chain(right, left),
                    typed_op(*operator, lhs.numeric()),
                );
                let ghost target = ref_code(sc.after(value), **lhs);
                self.compile_expr(rhs)?;
                self.compile_expr(lhs)?;
                assert(self@.code =~= base.code + chain(right, left).unwrap().code);
                let op = self.typed_instruction(*operator, lhs.numeric_kind())?;
                self.emit(op);
                assert(self@.code =~= base.code + value.unwrap().code);
                self.getref_expr(lhs)?;
                assert(self@.code =~= base.code + chain(value, target).unwrap().code);
                self.emit(Asm::ASSIGN);
            },
            _ => {},
        }
        assert(self@.code =~= old(self)@.code
            + compound_code(old(self)@.scope(), *expr).unwrap().code);
        Ok(())
    }

    /// Lowers the first half of `>=` or `<=`: the strict comparison of
    /// both operands and the test that jumps to `label` if it holds.
    fn compile_strict(&mut self, expr: &Expr, label: usize) -> (r: Result<(), NovaError>)
        requires
            *expr is Binop,
        ensures
            expr matches Expr::Binop(_, op, lhs, rhs) && lowered_value(
                old(self)@,
                followed_by(
                    followed_by_op(
                        chain(
                            expr_code(old(self)@.scope(), **lhs),
                            expr_code(
                                old(self)@.scope().after(expr_code(old(self)@.scope(), **lhs)),
                                **rhs,
                            ),
                        ),
                        typed_op(*op, lhs.numeric()),
                    ),
                    seq![SpecAsm::DUP, SpecAsm::NOT, SpecAsm::JUMPIFFALSE(label), SpecAsm::POP],
                ),
                final(self)@,
                r,
            ),
        decreases expr, 1nat,
    {
        self.compile_both(expr)?;
        match expr {
            Expr::Binop(_, operator, lhs, rhs) => {
                let ghost sc = old(self)@.scope();
                let ghost left = expr_code(sc, **lhs);
                let ghost strict = followed_by_op(
                    chain(left, expr_code(sc.after(left), **rhs)),
                    typed_op(*operator, lhs.numeric()),
                );
                let op = self.typed_instruction(*operator, lhs.numeric_kind())?;
                self.emit(op);
                assert(self@.code =~= old(self)@.code + strict.unwrap().code);
                self.emit_retest(label);
                assert(self@.code =~= old(self)@.code + followed_by(
                    strict,
                    seq![SpecAsm::DUP, SpecAsm::NOT, SpecAsm::JUMPIFFALSE(label), SpecAsm::POP],
                ).unwrap().code);
            },
            _ => {},
        }
        Ok(())
    }

    /// Lowers `>=` or `<=`.
    fn compile_ordered_or_equal(&mut self, expr: &Expr) -> (r: Result<(), NovaError>)
        requires
            *expr is Binop,
        ensures
            lowered_value(
                old(self)@,
                ordered_or_equal_code(old(self)@.scope(), *expr),
                final(self)@,
                r,
            ),
        decreases expr, 2nat,
    {
        match expr {
            Expr::Binop(_, operator, lhs, rhs) => {
                let ghost base = self@;
                let ghost sc = base.scope();
                let ghost left = expr_code(sc.skip_labels(1), **lhs);
                let ghost right = expr_code(sc.after(left), **rhs);
                let ghost strict = followed_by_op(
                    chain(left, right),
                    typed_op(*operator, lhs.numeric()),
                );
                let ghost test = followed_by(
                    strict,
                    seq![
                        SpecAsm::DUP,
                        SpecAsm::NOT,
                        SpecAsm::JUMPIFFALSE(sc.next),
                        SpecAsm::POP,
                    ],
                );
                let ghost left_again = expr_code(sc.after(strict), **lhs);
                let ghost right_again = expr_code(sc.after(left_again), **rhs);
                let label = self.fresh_label()?;
                self.compile_strict(expr, label)?;
                assert(self@.code =~= base.code + test.unwrap().code);
                self.compile_both(expr)?;
                assert(self@.code =~= base.code + chain(
                    test,
                    chain(left_again, right_again),
                ).unwrap().code);
                self.emit(Asm::EQUALS);
                self.emit(Asm::LABEL(label));
            },
            _ => {},
        }
        assert(self@.code =~= old(self)@.code + ordered_or_equal_code(
            old(self)@.scope(),
            *expr,
        ).unwrap().code);
        Ok(())
    }

    /// Lowers `&&` or `||`.
    fn compile_short_circuit(&mut self, expr: &Expr) -> (r: Result<(), NovaError>)
        requires
            *expr is Binop,
        ensures
            lowered_value(
                old(self)@,
                short_circuit_code(old(self)@.scope(), *expr),
                final(self)@,
                r,
            ),
        decreases expr, 0nat,
    {
        match expr {
            Expr::Binop(_, operator, lhs, rhs) => {
                let ghost base = self@;
                let ghost sc = base.scope();
                let ghost left = expr_code(sc.skip_labels(1), **lhs);
                let ghost test = followed_by(left, short_circuit_test(*operator, sc.next));
                let ghost right = expr_code(sc.after(left), **rhs);
                let label = self.fresh_label()?;
                self.compile_expr(lhs)?;
                self.emit_guard(operator, label);
                assert(self@.code =~= base.code + test.unwrap().code);
                self.compile_expr(rhs)?;
                assert(self@.code =~= base.code + chain(test, right).unwrap().code);
                self.emit(Asm::LABEL(label));
            },
            _ => {},
        }
        assert(self@.code =~= old(self)@.code + short_circuit_code(
            old(self)@.scope(),
            *expr,
        ).unwrap().code);
        Ok(())
    }

    /// Lowers a closure.
    fn compile_closure(&mut self, expr: &Expr) -> (r: Result<(), NovaError>)
        requires
            *expr is Closure,
        ensures
            lowered_value(old(self)@, closure_code(old(self)@.scope(), *expr), final(self)@, r),
        decreases expr, 0nat,
    {
        match expr {
            Expr::Closure(_, parameters, input, captured) => {
                self.fetch_captures(captured)?;
                self.emit(Asm::LIST(captured.len()));
                let closurejump = self.fresh_label()?;
                self.emit(Asm::CLOSURE(closurejump));
                let locals = seed_locals(parameters, captured);
                let seeded: usize = locals.len();
                let mut function_compile = self.child(locals);
                proof {
                    lemma_block_frame(function_compile@.scope(), input@, input@.len());
                }
                function_compile.compile_block(input)?;
                let arity = self.operand(seeded)?;
                let extra = self.operand(function_compile.variables.len() - seeded)?;
                self.emit(Asm::OFFSET(arity, extra));
                self.splice(function_compile);
                self.emit(Asm::LABEL(closurejump));
            },
            _ => {},
        }
        assert(self@.code =~= old(self)@.code
            + closure_code(old(self)@.scope(), *expr).unwrap().code);
        Ok(())
    }

    /// Stores the value on the stack under `name`.
    fn store(&mut self, name: &String) -> (r: Result<(), NovaError>)
        ensures
            lowered_in_place(old(self)@, store_code(old(self)@.scope(), name@), final(self)@, r),
    {
        match self.variables.get_index(name) {
            Some(index) => {
                let slot = self.operand(index)?;
                self.emit(Asm::STORE(slot));
            },
            None => {
                let slot = self.operand(self.variables.len())?;
                self.variables.insert(name.clone());
                self.emit(Asm::STORE(slot));
            },
        }
        assert(self@.code =~= old(self)@.code
            + store_code(old(self)@.scope(), name@).unwrap().code);
        Ok(())
    }

    /// Declares a struct.
    fn compile_struct(&mut self, name: &String, fields: usize) -> (r: Result<(), NovaError>)
        ensures
            lowered(
                old(self)@,
                struct_code(old(self)@.scope(), name@, fields as nat),
                final(self)@,
                r,
            ),
    {
        let structjump = self.fresh_label()?;
        if fields == 0 {
            return Err(self.error(ErrorKind::OperandOutOfRange));
        }
        let arity = self.operand(fields - 1)?;
        let slot = self.operand(self.global.len())?;
        self.global.insert(name.clone());
        self.emit(Asm::FUNCTION(structjump));
        self.emit(Asm::OFFSET(arity, 0));
        self.emit(Asm::STRING(name.clone()));
        self.emit(Asm::LIST(fields));
        self.emit(Asm::RET(true));
        self.emit(Asm::LABEL(structjump));
        self.emit(Asm::STOREGLOBAL(slot));
        assert(self@.code =~= old(self)@.code
            + struct_code(old(self)@.scope(), name@, fields as nat).unwrap().code);
        Ok(())
    }

    /// Lowers `break`.
    fn compile_break(&mut self) -> (r: Result<(), NovaError>)
        ensures
            lowered_in_place(old(self)@, break_code(old(self)@.scope()), final(self)@, r),
    {
        if self.breaks.len() == 0 {
            return Err(self.error(ErrorKind::BreakOutsideLoop));
        }
        let target = self.breaks[self.breaks.len() - 1];
        self.emit(Asm::JMP(target));
        assert(self@.code =~= old(self)@.code + break_code(old(self)@.scope()).unwrap().code);
        Ok(())
    }

    /// Declares a function.
    fn compile_function(&mut self, statement: &Statement) -> (r: Result<(), NovaError>)
        requires
            *statement is Function,
        ensures
            lowered(old(self)@, function_code(old(self)@.scope(), *statement), final(self)@, r),
        decreases statement, 0nat,
    {
        match statement {
            Statement::Function(_, identifier, parameters, input) => {
                let index = self.global.insert(identifier.clone());
                let functionjump = self.fresh_label()?;
                self.emit(Asm::FUNCTION(functionjump));
                let no_captures: Vec<String> = Vec::new();
                let locals = seed_locals(parameters, &no_captures);
                let mut function_compile = self.child(locals);
                proof {
                    assert(names(no_captures@) =~= Seq::<Seq<char>>::empty());
                    assert(function_compile@.variables =~= arg_names(parameters@));
                    lemma_block_frame(function_compile@.scope(), input@, input@.len());
                }
                function_compile.compile_block(input)?;
                let arity = self.operand(parameters.len())?;
                let extra = self.operand(function_compile.variables.len() - parameters.len())?;
                let slot = self.operand(index)?;
                self.emit(Asm::OFFSET(arity, extra));
                self.splice(function_compile);
                self.emit(Asm::LABEL(functionjump));
                self.emit(Asm::STOREGLOBAL(slot));
            },
            _ => {},
        }
        assert(self@.code =~= old(self)@.code
            + function_code(old(self)@.scope(), *statement).unwrap().code);
        Ok(())
    }

    /// Lowers the test of a conditional, the jump to `otherwise` if it
    /// fails, and the body.
    fn compile_taken(&mut self, statement: &Statement, otherwise: usize) -> (r: Result<
        (),
        NovaError,
    >)
        requires
            *statement is If,
        ensures
            statement matches Statement::If(_, test, body, _) && lowered(
                old(self)@,
                chain(
                    followed_by(
                        expr_code(old(self)@.scope(), *test),
                        seq![SpecAsm::JUMPIFFALSE(otherwise)],
                    ),
                    block_code(
                        old(self)@.scope().after(expr_code(old(self)@.scope(), *test)),
                        body@,
                        body@.len(),
                    ),
                ),
                final(self)@,
                r,
            ),
        decreases statement, 0nat,
    {
        match statement {
            Statement::If(_, test, body, _) => {
                let ghost sc = self@.scope();
                let ghost tested = followed_by(
                    expr_code(sc, *test),
                    seq![SpecAsm::JUMPIFFALSE(otherwise)],
                );
                let ghost taken = chain(tested, block_code(sc.after(tested), body@, body@.len()));
                self.compile_expr(test)?;
                self.emit(Asm::JUMPIFFALSE(otherwise));
                assert(self@.code =~= old(self)@.code + tested.unwrap().code);
                self.compile_block(body)?;
                assert(self@.code =~= old(self)@.code + taken.unwrap().code);
            },
            _ => {},
        }
        Ok(())
    }

    /// Lowers a conditional.
    fn compile_if(&mut self, statement: &Statement) -> (r: Result<(), NovaError>)
        requires
            *statement is If,
        ensures
            lowered(old(self)@, if_code(old(self)@.scope(), *statement), final(self)@, r),
        decreases statement, 1nat,
    {
        match statement {
            Statement::If(_, test, body, alternative) => {
                let ghost base = self@;
                let ghost sc = base.scope();
                let ghost tested = followed_by(
                    expr_code(sc.skip_labels(2), *test),
                    seq![SpecAsm::JUMPIFFALSE(sc.next)],
                );
                let ghost taken = chain(tested, block_code(sc.after(tested), body@, body@.len()));
                let bodyjump = self.fresh_label()?;
                let alterjump = self.fresh_label()?;
                self.compile_taken(statement, bodyjump)?;
                assert(self@.code =~= base.code + taken.unwrap().code);
                match alternative {
                    Some(alternative) => {
                        let ghost middle = followed_by(
                            taken,
                            seq![SpecAsm::JMP(alterjump), SpecAsm::LABEL(bodyjump)],
                        );
                        let ghost otherwise = block_code(
                            sc.after(taken),
                            alternative@,
                            alternative@.len(),
                        );
                        self.emit(Asm::JMP(alterjump));
                        self.emit(Asm::LABEL(bodyjump));
                        assert(self@.code =~= base.code + middle.unwrap().code);
                        self.compile_block(alternative)?;
                        assert(self@.code =~= base.code + chain(middle, otherwise).unwrap().code);
                        self.emit(Asm::LABEL(alterjump));
                    },
                    None => {
                        self.emit(Asm::LABEL(bodyjump));
                    },
                }
            },
            _ => {},
        }
        assert(self@.code =~= old(self)@.code
            + if_code(old(self)@.scope(), *statement).unwrap().code);
        Ok(())
    }

    /// Lowers a while loop.
    fn compile_while(&mut self, statement: &Statement) -> (r: Result<(), NovaError>)
        requires
            *statement is While,
        ensures
            lowered(old(self)@, while_code(old(self)@.scope(), *statement), final(self)@, r),
        decreases statement, 0nat,
    {
        match statement {
            Statement::While(test, body) => {
                let ghost base = self@;
                let ghost sc = base.scope();
                let ghost inner = sc.skip_labels(2).in_loop((sc.next + 1) as usize);
                let ghost tested = followed_by(
                    chain(sc.emit(seq![SpecAsm::LABEL(sc.next)]), expr_code(inner, *test)),
                    seq![SpecAsm::JUMPIFFALSE((sc.next + 1) as usize)],
                );
                let ghost looped = chain(
                    tested,
                    block_code(inner.after(tested), body@, body@.len()),
                );
                let (top, end) = self.enter_loop()?;
                let ghost entered = self@;
                self.emit(Asm::LABEL(top));
                self.compile_expr(test)?;
                self.emit(Asm::JUMPIFFALSE(end));
                assert(self@.code =~= entered.code + tested.unwrap().code);
                self.compile_block(body)?;
                assert(self@.code =~= entered.code + looped.unwrap().code);
                self.leave_loop(top, end);
                assert(self@.breaks =~= base.breaks);
            },
            _ => {},
        }
        assert(self@.code =~= old(self)@.code + while_code(
            old(self)@.scope(),
            *statement,
        ).unwrap().code);
        Ok(())
    }

    /// Lowers a for loop.
    fn compile_for(&mut self, statement: &Statement) -> (r: Result<(), NovaError>)
        requires
            *statement is For,
        ensures
            lowered(old(self)@, for_code(old(self)@.scope(), *statement), final(self)@, r),
        decreases statement, 0nat,
    {
        match statement {
            Statement::For(init, test, inc, body) => {
                let ghost base = self@;
                let ghost sc = base.scope();
                let ghost inner = sc.skip_labels(2).in_loop((sc.next + 1) as usize);
                let ghost started = followed_by(
                    expr_code(inner, *init),
                    seq![SpecAsm::LABEL(sc.next)],
                );
                let ghost tested = followed_by(
                    chain(started, expr_code(inner.after(started), *test)),
                    seq![SpecAsm::JUMPIFFALSE((sc.next + 1) as usize)],
                );
                let ghost looped = chain(
                    tested,
                    block_code(inner.after(tested), body@, body@.len()),
                );
                let ghost stepped = chain(looped, expr_code(inner.after(looped), *inc));
                let (top, end) = self.enter_loop()?;
                let ghost entered = self@;
                self.compile_expr(init)?;
                self.emit(Asm::LABEL(top));
                assert(self@.code =~= entered.code + started.unwrap().code);
                self.compile_expr(test)?;
                self.emit(Asm::JUMPIFFALSE(end));
                assert(self@.code =~= entered.code + tested.unwrap().code);
                self.compile_block(body)?;
                assert(self@.code =~= entered.code + looped.unwrap().code);
                self.compile_expr(inc)?;
                assert(self@.code =~= entered.code + stepped.unwrap().code);
                self.leave_loop(top, end);
                assert(self@.breaks =~= base.breaks);
            },
            _ => {},
        }
        assert(self@.code =~= old(self)@.code + for_code(
            old(self)@.scope(),
            *statement,
        ).unwrap().code);
        Ok(())
    }

    /// Lowers one statement.
    fn compile_statement(&mut self, statement: &Statement) -> (r: Result<(), NovaError>)
        ensures
            lowered(old(self)@, stmt_code(old(self)@.scope(), *statement), final(self)@, r),
        decreases statement, 2nat,
    {
        match statement {
            Statement::Pass => {},
            Statement::Let(_, identifier, expr) => {
                self.compile_expr(expr)?;
                self.store(identifier)?;
            },
            Statement::Function(_, _, _, _) => {
                return self.compile_function(statement);
            },
            Statement::Struct(_, identifier, fields) => {
                return self.compile_struct(identifier, fields.len());
            },
            Statement::Return(ttype, expr, _, _) => {
                self.compile_expr(expr)?;
                self.emit(Asm::RET(!ttype.is_void()));
            },
            Statement::Expression(_, expr) => {
                return self.compile_expr(expr);
            },
            Statement::If(_, _, _, _) => {
                return self.compile_if(statement);
            },
            Statement::While(_, _) => {
                return self.compile_while(statement);
            },
            Statement::For(_, _, _, _) => {
                return self.compile_for(statement);
            },
            Statement::Break => {
                return self.compile_break();
            },
            Statement::Continue => {
                return Err(self.error(ErrorKind::ContinueUnsupported));
            },
            Statement::Block(body) => {
                return self.compile_block(body);
            },
        }
        assert(self@.code =~= old(self)@.code
            + stmt_code(old(self)@.scope(), *statement).unwrap().code);
        Ok(())
    }

    /// Lowers the statements of a block in order, in this context.
    fn compile_block(&mut self, block: &Vec<Statement>) -> (r: Result<(), NovaError>)
        ensures
            lowered(
                old(self)@,
                block_code(old(self)@.scope(), block@, block@.len()),
                final(self)@,
                r,
            ),
        decreases block, 0nat,
    {
        let ghost sc = self@.scope();
        let mut i: usize = 0;
        assert(self@.code =~= old(self)@.code + block_code(sc, block@, 0).unwrap().code);
        while i < block.len()
            invariant
                i <= block.len(),
                sc == old(self)@.scope(),
                block_code(sc, block@, i as nat) is Ok,
                self@ == old(self)@.advance(block_code(sc, block@, i as nat).unwrap()),
                self@.grown_from(old(self)@),
            decreases block.len() - i,
        {
            let ghost front = block_code(sc, block@, i as nat);
            let ghost full = block_code(sc, block@, (i + 1) as nat);
            assert(self@.scope() =~= sc.after(front));
            match self.compile_statement(&block[i]) {
                Ok(()) => {},
                Err(e) => {
                    proof {
                        lemma_block_failure_stays(sc, block@, (i + 1) as nat, block@.len());
                    }
                    return Err(e);
                },
            }
            assert(self@.code =~= old(self)@.code + full.unwrap().code);
            i = i + 1;
        }
        Ok(())
    }

    /// Compiles a program onto the instructions already in this context.
    ///
    /// The statements are lowered in order. Then, unless `function` is
    /// set, `alloc` puts `ALLOCLOCALS` sized to the locals in front of all
    /// instructions; `global` puts `ALLOCGLOBBALS` sized to the globals in
    /// front of that; and `RET(false)` ends the list. Returns a copy of the
    /// byte output, which no lowering writes: it is what the caller put
    /// there. On failure the context is left as it stood when the failure
    /// was found, with the instructions it had before and maybe more after
    /// them.
    pub fn compile_program(
        &mut self,
        input: &Ast,
        filepath: String,
        alloc: bool,
        global: bool,
        function: bool,
    ) -> (r: Result<Vec<u8>, NovaError>)
        ensures
            match r {
                Ok(bytes) => {
                    &&& program_code(
                        old(self)@.code,
                        old(self)@.scope(),
                        input.program@,
                        alloc,
                        global,
                        function,
                    ) matches Ok(out)
                    &&& final(self)@ == (CompilerView {
                        filepath: filepath@,
                        code: out.code,
                        variables: out.locals,
                        global: out.globals,
                        next_label: out.next,
                        ..old(self)@
                    })
                    &&& bytes@ == old(self)@.output
                },
                Err(e) => {
                    &&& program_code(
                        old(self)@.code,
                        old(self)@.scope(),
                        input.program@,
                        alloc,
                        global,
                        function,
                    ) == Err::<Emitted, ErrorKind>(e.kind)
                    &&& e.filepath@ == filepath@
                    &&& final(self)@.keeps_surroundings(
                        CompilerView { filepath: filepath@, ..old(self)@ },
                    )
                    &&& final(self)@.grown_from(old(self)@)
                },
            },
    {
        self.filepath = filepath;
        self.compile_block(&input.program)?;
        let locals = self.operand(if alloc && !function {
            self.variables.len()
        } else {
            0
        })?;
        let globals = self.operand(if global {
            self.global.len()
        } else {
            0
        })?;
        if alloc && !function {
            self.put_first(Asm::ALLOCLOCALS(locals));
        }
        if global {
            self.put_first(Asm::ALLOCGLOBBALS(globals));
        }
        self.emit(Asm::RET(false));
        let bytes = copy_bytes(&self.output);
        assert(self@.code =~= program_code(
            old(self)@.code,
            old(self)@.scope(),
            input.program@,
            alloc,
            global,
            function,
        ).unwrap().code);
        Ok(bytes)
    }

    /// Puts one instruction in front of all others.
    fn put_first(&mut self, op: Asm)
        ensures
            final(self)@ == (CompilerView { code: seq![op@] + old(self)@.code, ..old(self)@ }),
    {
        self.code.insert(0, op);
        assert(listing(self.code@) =~= seq![op@] + listing(old(self).code@));
    }
}

} // verus!
