//! A symbolic simulator of stack depth over instruction lists.
//!
//! The simulator walks a list once, front to back, and adds up how many
//! values each instruction pushes or pops. A function or closure body is
//! not run where it stands: `FUNCTION(l)` and `CLOSURE(l)` skip to the
//! label `l`. The three call instructions carry no arity, so the depth
//! after them cannot be told from the list, and the simulator gives up.

use vstd::prelude::*;
use crate::code::SpecAsm;

verus! {

/// How many values an instruction pushes, less how many it pops, when it
/// is executed in place; `None` for the calls, whose effect depends on the
/// callee. `FUNCTION` leaves a function value; `CLOSURE` turns the list of
/// captured values into a closure.
pub open spec fn delta(op: SpecAsm) -> Option<int> {
    match op {
        SpecAsm::ALLOCGLOBBALS(_) | SpecAsm::ALLOCLOCALS(_) | SpecAsm::OFFSET(_, _) => Some(0),
        SpecAsm::STORE(_) | SpecAsm::STOREGLOBAL(_) => Some(-1),
        SpecAsm::GET(_) | SpecAsm::GETGLOBAL(_) | SpecAsm::STACKREF(_) => Some(1),
        SpecAsm::DCALL(_) | SpecAsm::NATIVE(_) | SpecAsm::CALL => None,
        SpecAsm::LIST(n) => Some(1 - n),
        SpecAsm::FUNCTION(_) => Some(1),
        SpecAsm::CLOSURE(_) => Some(0),
        SpecAsm::LABEL(_) | SpecAsm::JMP(_) | SpecAsm::BJMP(_) => Some(0),
        SpecAsm::JUMPIFFALSE(_) => Some(-1),
        SpecAsm::INTEGER(_) | SpecAsm::FLOAT(_) | SpecAsm::BOOL(_) | SpecAsm::STRING(_) => Some(1),
        SpecAsm::RET(value) => Some(if value { -1 } else { 0 }),
        SpecAsm::PIN | SpecAsm::LIN => Some(-1),
        SpecAsm::PRINT | SpecAsm::FREE => Some(-1),
        SpecAsm::CLONE | SpecAsm::NEG | SpecAsm::NOT => Some(0),
        SpecAsm::IGTR
        | SpecAsm::FGTR
        | SpecAsm::ILSS
        | SpecAsm::FLSS
        | SpecAsm::IADD
        | SpecAsm::FADD
        | SpecAsm::ISUB
        | SpecAsm::FSUB
        | SpecAsm::IDIV
        | SpecAsm::FDIV
        | SpecAsm::IMUL
        | SpecAsm::FMUL
        | SpecAsm::IMODULO
        | SpecAsm::FMODULO
        | SpecAsm::EQUALS => Some(-1),
        SpecAsm::DUP => Some(1),
        SpecAsm::POP => Some(-1),
        SpecAsm::ASSIGN => Some(-2),
    }
}

/// Whether an instruction opens a body that is skipped up to its label.
pub open spec fn opens_body(op: SpecAsm) -> bool {
    op is FUNCTION || op is CLOSURE
}

/// The state of the simulator: the depth relative to the start, the label
/// up to which instructions are being skipped, if any, and whether the
/// depth is still known.
pub struct Sim {
    pub depth: int,
    pub skipping: Option<usize>,
    pub known: bool,
}

impl Sim {
    /// The state before the first instruction.
    pub open spec fn start() -> Sim {
        Sim { depth: 0, skipping: None, known: true }
    }

    /// This state with the depth moved by `d`.
    pub open spec fn moved(self, d: int) -> Sim {
        Sim { depth: self.depth + d, ..self }
    }

    /// The state after one more instruction.
    pub open spec fn step(self, op: SpecAsm) -> Sim {
        match self.skipping {
            Some(label) => if op == SpecAsm::LABEL(label) {
                Sim { skipping: None, ..self }
            } else {
                self
            },
            None => match delta(op) {
                None => Sim { known: false, ..self },
                Some(d) => match op {
                    SpecAsm::FUNCTION(label) => Sim { skipping: Some(label), ..self.moved(d) },
                    SpecAsm::CLOSURE(label) => Sim { skipping: Some(label), ..self.moved(d) },
                    _ => self.moved(d),
                },
            },
        }
    }

    /// The state after a list of instructions.
    pub open spec fn run(self, code: Seq<SpecAsm>) -> Sim
        decreases code.len(),
    {
        if code.len() == 0 {
            self
        } else {
            self.run(code.drop_last()).step(code.last())
        }
    }
}

/// The net number of values that a list of instructions leaves on the
/// stack, if the simulator can tell: every instruction it ran has a known
/// effect and every body it skipped ends within the list.
pub open spec fn net_effect(code: Seq<SpecAsm>) -> Option<int> {
    let end = Sim::start().run(code);
    if end.known && end.skipping is None {
        Some(end.depth)
    } else {
        None
    }
}

/// The sum of two effects, known when both are.
pub open spec fn plus(a: Option<int>, b: Option<int>) -> Option<int> {
    match (a, b) {
        (Some(x), Some(y)) => Some(x + y),
        _ => None,
    }
}

/// Whether `LABEL(label)` stands nowhere in the list.
pub open spec fn lacks_label(code: Seq<SpecAsm>, label: usize) -> bool {
    forall|i: int| 0 <= i < code.len() ==> code[i] != SpecAsm::LABEL(label)
}

/// Running one more instruction is one more step.
pub proof fn lemma_run_push(st: Sim, code: Seq<SpecAsm>, op: SpecAsm)
    ensures
        st.run(code.push(op)) == st.run(code).step(op),
{
    assert(code.push(op).drop_last() =~= code);
}

/// Running a concatenation is running its parts in turn.
pub proof fn lemma_run_concat(st: Sim, a: Seq<SpecAsm>, b: Seq<SpecAsm>)
    ensures
        st.run(a + b) == st.run(a).run(b),
    decreases b.len(),
{
    if b.len() == 0 {
        assert(a + b =~= a);
    } else {
        lemma_run_concat(st, a, b.drop_last());
        assert((a + b).drop_last() =~= a + b.drop_last());
    }
}

/// The depth at the start only shifts the depth at the end.
pub proof fn lemma_run_moved(st: Sim, d: int, code: Seq<SpecAsm>)
    ensures
        st.moved(d).run(code) == st.run(code).moved(d),
    decreases code.len(),
{
    if code.len() > 0 {
        lemma_run_moved(st, d, code.drop_last());
    }
}

/// While a body is skipped, instructions other than its label do nothing.
pub proof fn lemma_run_skips(st: Sim, code: Seq<SpecAsm>)
    requires
        st.skipping matches Some(label) && lacks_label(code, label),
    ensures
        st.run(code) == st,
    decreases code.len(),
{
    if code.len() > 0 {
        assert forall|i: int| 0 <= i < code.drop_last().len() implies code.drop_last()[i]
            != SpecAsm::LABEL(st.skipping.unwrap()) by {
            assert(code.drop_last()[i] == code[i]);
        }
        lemma_run_skips(st, code.drop_last());
    }
}

/// The empty list leaves the stack as it is.
pub proof fn lemma_net_empty()
    ensures
        net_effect(Seq::<SpecAsm>::empty()) == Some(0int),
{
}

/// The effects of two lists add up.
pub proof fn lemma_net_concat(a: Seq<SpecAsm>, b: Seq<SpecAsm>)
    requires
        net_effect(a) is Some,
        net_effect(b) is Some,
    ensures
        net_effect(a + b) == plus(net_effect(a), net_effect(b)),
{
    let mid = Sim::start().run(a);
    lemma_run_concat(Sim::start(), a, b);
    assert(mid == Sim::start().moved(mid.depth));
    lemma_run_moved(Sim::start(), mid.depth, b);
}

/// One more instruction that is executed in place adds its own effect.
pub proof fn lemma_net_push(code: Seq<SpecAsm>, op: SpecAsm)
    requires
        net_effect(code) is Some,
        delta(op) is Some,
        !opens_body(op),
    ensures
        net_effect(code.push(op)) == plus(net_effect(code), delta(op)),
{
    lemma_run_push(Sim::start(), code, op);
}

/// The effect of one instruction that is executed in place.
pub proof fn lemma_net_1(a: SpecAsm)
    requires
        delta(a) is Some,
        !opens_body(a),
    ensures
        net_effect(seq![a]) == delta(a),
{
    lemma_net_push(Seq::empty(), a);
    assert(seq![a] =~= Seq::empty().push(a));
}

/// The effect of two instructions that are executed in place.
pub proof fn lemma_net_2(a: SpecAsm, b: SpecAsm)
    requires
        delta(a) is Some,
        !opens_body(a),
        delta(b) is Some,
        !opens_body(b),
    ensures
        net_effect(seq![a, b]) == plus(delta(a), delta(b)),
{
    lemma_net_1(a);
    lemma_net_push(seq![a], b);
    assert(seq![a, b] =~= seq![a].push(b));
}

/// The effect of three instructions that are executed in place.
pub proof fn lemma_net_3(a: SpecAsm, b: SpecAsm, c: SpecAsm)
    requires
        delta(a) is Some,
        !opens_body(a),
        delta(b) is Some,
        !opens_body(b),
        delta(c) is Some,
        !opens_body(c),
    ensures
        net_effect(seq![a, b, c]) == plus(plus(delta(a), delta(b)), delta(c)),
{
    lemma_net_2(a, b);
    lemma_net_push(seq![a, b], c);
    assert(seq![a, b, c] =~= seq![a, b].push(c));
}

/// The effect of four instructions that are executed in place.
pub proof fn lemma_net_4(a: SpecAsm, b: SpecAsm, c: SpecAsm, d: SpecAsm)
    requires
        delta(a) is Some,
        !opens_body(a),
        delta(b) is Some,
        !opens_body(b),
        delta(c) is Some,
        !opens_body(c),
        delta(d) is Some,
        !opens_body(d),
    ensures
        net_effect(seq![a, b, c, d]) == plus(plus(plus(delta(a), delta(b)), delta(c)), delta(d)),
{
    lemma_net_3(a, b, c);
    lemma_net_push(seq![a, b, c], d);
    assert(seq![a, b, c, d] =~= seq![a, b, c].push(d));
}

/// A body between the instruction that opens it and its label counts only
/// for what the opening instruction leaves, whatever the body holds, as
/// long as the label does not stand inside it.
pub proof fn lemma_net_body(open: SpecAsm, label: usize, inside: Seq<SpecAsm>)
    requires
        open == SpecAsm::FUNCTION(label) || open == SpecAsm::CLOSURE(label),
        lacks_label(inside, label),
    ensures
        net_effect(seq![open] + inside + seq![SpecAsm::LABEL(label)]) == delta(open),
{
    let st = Sim::start();
    lemma_run_push(st, Seq::empty(), open);
    assert(seq![open] =~= Seq::empty().push(open));
    let opened = st.run(seq![open]);
    lemma_run_concat(st, seq![open], inside);
    lemma_run_skips(opened, inside);
    lemma_run_push(st, seq![open] + inside, SpecAsm::LABEL(label));
    assert(seq![open] + inside + seq![SpecAsm::LABEL(label)] =~= (seq![open] + inside).push(
        SpecAsm::LABEL(label),
    ));
}

} // verus!
