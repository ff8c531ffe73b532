//! The instructions of the stack machine, and their mathematical view.

use vstd::prelude::*;

verus! {

/// One instruction: an opcode with its operands. Slots are indices into
/// the local or global frame; `FUNCTION`, `CLOSURE`, `LABEL` and the jumps
/// carry a label id; `FLOAT` carries the bit pattern of an IEEE 754
/// double.
#[derive(Clone, Debug, PartialEq)]
pub enum Asm {
    ALLOCGLOBBALS(u32),
    ALLOCLOCALS(u32),
    STORE(u32),
    STOREGLOBAL(u32),
    GET(u32),
    GETGLOBAL(u32),
    STACKREF(u32),
    DCALL(u32),
    OFFSET(u32, u32),
    NATIVE(usize),
    LIST(usize),
    FUNCTION(usize),
    CLOSURE(usize),
    LABEL(usize),
    JMP(usize),
    BJMP(usize),
    JUMPIFFALSE(usize),
    INTEGER(i64),
    FLOAT(u64),
    BOOL(bool),
    RET(bool),
    STRING(String),
    PIN,
    PRINT,
    FREE,
    CLONE,
    CALL,
    LIN,
    NEG,
    NOT,
    IGTR,
    FGTR,
    ILSS,
    FLSS,
    IADD,
    FADD,
    ISUB,
    FSUB,
    IDIV,
    FDIV,
    IMUL,
    FMUL,
    IMODULO,
    FMODULO,
    EQUALS,
    DUP,
    POP,
    ASSIGN,
}

/// The mathematical view of an instruction: the same opcodes, with a
/// string literal held as its sequence of characters.
pub enum SpecAsm {
    ALLOCGLOBBALS(u32),
    ALLOCLOCALS(u32),
    STORE(u32),
    STOREGLOBAL(u32),
    GET(u32),
    GETGLOBAL(u32),
    STACKREF(u32),
    DCALL(u32),
    OFFSET(u32, u32),
    NATIVE(usize),
    LIST(usize),
    FUNCTION(usize),
    CLOSURE(usize),
    LABEL(usize),
    JMP(usize),
    BJMP(usize),
    JUMPIFFALSE(usize),
    INTEGER(i64),
    FLOAT(u64),
    BOOL(bool),
    RET(bool),
    STRING(Seq<char>),
    PIN,
    PRINT,
    FREE,
    CLONE,
    CALL,
    LIN,
    NEG,
    NOT,
    IGTR,
    FGTR,
    ILSS,
    FLSS,
    IADD,
    FADD,
    ISUB,
    FSUB,
    IDIV,
    FDIV,
    IMUL,
    FMUL,
    IMODULO,
    FMODULO,
    EQUALS,
    DUP,
    POP,
    ASSIGN,
}

impl View for Asm {
    type V = SpecAsm;

    open spec fn view(&self) -> SpecAsm {
        match *self {
            Asm::ALLOCGLOBBALS(a) => SpecAsm::ALLOCGLOBBALS(a),
            Asm::ALLOCLOCALS(a) => SpecAsm::ALLOCLOCALS(a),
            Asm::STORE(a) => SpecAsm::STORE(a),
            Asm::STOREGLOBAL(a) => SpecAsm::STOREGLOBAL(a),
            Asm::GET(a) => SpecAsm::GET(a),
            Asm::GETGLOBAL(a) => SpecAsm::GETGLOBAL(a),
            Asm::STACKREF(a) => SpecAsm::STACKREF(a),
            Asm::DCALL(a) => SpecAsm::DCALL(a),
            Asm::OFFSET(a, b) => SpecAsm::OFFSET(a, b),
            Asm::NATIVE(a) => SpecAsm::NATIVE(a),
            Asm::LIST(a) => SpecAsm::LIST(a),
            Asm::FUNCTION(a) => SpecAsm::FUNCTION(a),
            Asm::CLOSURE(a) => SpecAsm::CLOSURE(a),
            Asm::LABEL(a) => SpecAsm::LABEL(a),
            Asm::JMP(a) => SpecAsm::JMP(a),
            Asm::BJMP(a) => SpecAsm::BJMP(a),
            Asm::JUMPIFFALSE(a) => SpecAsm::JUMPIFFALSE(a),
            Asm::INTEGER(a) => SpecAsm::INTEGER(a),
            Asm::FLOAT(a) => SpecAsm::FLOAT(a),
            Asm::BOOL(a) => SpecAsm::BOOL(a),
            Asm::RET(a) => SpecAsm::RET(a),
            Asm::STRING(s) => SpecAsm::STRING(s@),
            Asm::PIN => SpecAsm::PIN,
            Asm::PRINT => SpecAsm::PRINT,
            Asm::FREE => SpecAsm::FREE,
            Asm::CLONE => SpecAsm::CLONE,
            Asm::CALL => SpecAsm::CALL,
            Asm::LIN => SpecAsm::LIN,
            Asm::NEG => SpecAsm::NEG,
            Asm::NOT => SpecAsm::NOT,
            Asm::IGTR => SpecAsm::IGTR,
            Asm::FGTR => SpecAsm::FGTR,
            Asm::ILSS => SpecAsm::ILSS,
            Asm::FLSS => SpecAsm::FLSS,
            Asm::IADD => SpecAsm::IADD,
            Asm::FADD => SpecAsm::FADD,
            Asm::ISUB => SpecAsm::ISUB,
            Asm::FSUB => SpecAsm::FSUB,
            Asm::IDIV => SpecAsm::IDIV,
            Asm::FDIV => SpecAsm::FDIV,
            Asm::IMUL => SpecAsm::IMUL,
            Asm::FMUL => SpecAsm::FMUL,
            Asm::IMODULO => SpecAsm::IMODULO,
            Asm::FMODULO => SpecAsm::FMODULO,
            Asm::EQUALS => SpecAsm::EQUALS,
            Asm::DUP => SpecAsm::DUP,
            Asm::POP => SpecAsm::POP,
            Asm::ASSIGN => SpecAsm::ASSIGN,
        }
    }
}

/// The view of an instruction list: the view of each instruction, in order.
pub open spec fn listing(ops: Seq<Asm>) -> Seq<SpecAsm> {
    ops.map_values(|a: Asm| a@)
}

/// Appending an instruction appends its view.
pub proof fn lemma_listing_push(ops: Seq<Asm>, op: Asm)
    ensures
        listing(ops.push(op)) == listing(ops).push(op@),
{
    assert(listing(ops.push(op)) =~= listing(ops).push(op@));
}

/// The view of a concatenation is the concatenation of the views.
pub proof fn lemma_listing_concat(a: Seq<Asm>, b: Seq<Asm>)
    ensures
        listing(a + b) == listing(a) + listing(b),
{
    assert(listing(a + b) =~= listing(a) + listing(b));
}

/// What starts a list starts the list that is started by that list and
/// more.
pub broadcast proof fn lemma_prefix_of_concat<T>(a: Seq<T>, more: Seq<T>, whole: Seq<T>)
    requires
        #[trigger] (a + more).is_prefix_of(whole),
    ensures
        a.is_prefix_of(whole),
{
    assert(a =~= (a + more).subrange(0, a.len() as int));
    assert(a =~= whole.subrange(0, a.len() as int));
}

/// What starts a list starts the list that is started by that list and
/// one more item.
pub broadcast proof fn lemma_prefix_of_push<T>(a: Seq<T>, item: T, whole: Seq<T>)
    requires
        #[trigger] a.push(item).is_prefix_of(whole),
    ensures
        a.is_prefix_of(whole),
{
    assert(a =~= a.push(item).subrange(0, a.len() as int));
    assert(a =~= whole.subrange(0, a.len() as int));
}

/// What starts a list still starts it when more is appended.
pub broadcast proof fn lemma_prefix_kept_by_concat<T>(a: Seq<T>, whole: Seq<T>, more: Seq<T>)
    requires
        a.is_prefix_of(whole),
    ensures
        #[trigger] a.is_prefix_of(whole + more),
{
    assert(a =~= (whole + more).subrange(0, a.len() as int));
}

/// What starts a list still starts it when one item is appended.
pub broadcast proof fn lemma_prefix_kept_by_push<T>(a: Seq<T>, whole: Seq<T>, item: T)
    requires
        a.is_prefix_of(whole),
    ensures
        #[trigger] a.is_prefix_of(whole.push(item)),
{
    assert(a =~= whole.push(item).subrange(0, a.len() as int));
}

/// Every list starts itself.
pub broadcast proof fn lemma_prefix_of_itself<T>(a: Seq<T>)
    ensures
        #[trigger] a.is_prefix_of(a),
{
    assert(a =~= a.subrange(0, a.len() as int));
}

/// What starts the start of a list starts the list.
pub broadcast proof fn lemma_prefix_of_prefix<T>(a: Seq<T>, b: Seq<T>, c: Seq<T>)
    requires
        #[trigger] a.is_prefix_of(b),
        #[trigger] b.is_prefix_of(c),
    ensures
        a.is_prefix_of(c),
{
    assert(a =~= b.subrange(0, a.len() as int));
    assert(b =~= c.subrange(0, b.len() as int));
    assert(a =~= c.subrange(0, a.len() as int));
}

/// How lists grow: appending keeps what the list started with.
pub broadcast group group_listing_grows {
    lemma_prefix_of_concat,
    lemma_prefix_of_push,
    lemma_prefix_kept_by_concat,
    lemma_prefix_kept_by_push,
    lemma_prefix_of_itself,
    lemma_prefix_of_prefix,
}

} // verus!
