use compiler::code::Asm;
use compiler::error::ErrorKind;
use compiler::gen::Gen;
use compiler::nodes::{Arg, Ast, Atom, Expr, Field, Statement};
use compiler::tokens::{Operator, TType};
use compiler::Compiler;

fn num(n: i64) -> Expr {
    Expr::Literal(TType::Int, Atom::Integer(n))
}

fn var(name: &str, t: TType) -> Expr {
    Expr::Literal(t, Atom::Id(name.to_string()))
}

fn binop(t: TType, op: Operator, l: Expr, r: Expr) -> Expr {
    Expr::Binop(t, op, Box::new(l), Box::new(r))
}

fn assign(name: &str, value: i64) -> Statement {
    Statement::Expression(
        TType::Void,
        binop(TType::Void, Operator::Assignment, var(name, TType::Int), num(value)),
    )
}

fn arg(name: &str) -> Arg {
    Arg { identifier: name.to_string(), ttype: TType::Int }
}

fn field(name: &str) -> Field {
    Field { identifier: name.to_string(), ttype: TType::Int }
}

fn with_locals(names: &[&str]) -> Compiler {
    let mut c = compiler::new();
    for n in names {
        c.variables.insert(n.to_string());
    }
    c
}

fn compile(c: &mut Compiler, program: Vec<Statement>) -> Result<Vec<u8>, ErrorKind> {
    c.compile_program(&Ast { program }, "test.nv".to_string(), false, false, false)
        .map_err(|e| e.kind)
}

#[test]
fn fresh_context_is_empty() {
    let c = compiler::new();
    assert_eq!(c.bindings.len(), 0);
    assert_eq!(c.global.len(), 0);
    assert_eq!(c.variables.len(), 0);
    assert_eq!(c.upvalues.len(), 0);
    assert_eq!(c.native_functions.len(), 0);
    assert!(c.output.is_empty());
    assert_eq!(c.filepath, "");
    assert_eq!(c.get_entry(), 0);
    assert!(c.code.is_empty());
    assert_eq!(c.gen, Gen::new());
    assert!(c.breaks.is_empty());
}

#[test]
fn clear_empties_the_byte_output_only() {
    let mut c = compiler::new();
    c.output.push(7);
    c.code.push(Asm::POP);
    c.entry = 9;
    c.clear();
    assert!(c.output.is_empty());
    assert_eq!(c.code, vec![Asm::POP]);
    assert_eq!(c.get_entry(), 9);
}

#[test]
fn let_as_sole_statement_of_a_full_frame() {
    let mut c = compiler::new();
    let program = Ast { program: vec![Statement::Let(TType::Int, "x".to_string(), num(1))] };
    let bytes = c.compile_program(&program, "main.nv".to_string(), true, true, false).unwrap();
    assert_eq!(
        c.code,
        vec![
            Asm::ALLOCGLOBBALS(0),
            Asm::ALLOCLOCALS(1),
            Asm::INTEGER(1),
            Asm::STORE(0),
            Asm::RET(false),
        ]
    );
    assert!(bytes.is_empty());
    assert_eq!(c.filepath, "main.nv");
    assert_eq!(c.variables.get_index(&"x".to_string()), Some(0));
}

#[test]
fn frame_flags_are_independent() {
    let program = || Ast { program: vec![Statement::Let(TType::Int, "x".to_string(), num(1))] };
    let body = vec![Asm::INTEGER(1), Asm::STORE(0), Asm::RET(false)];
    let with = |head: Vec<Asm>| {
        let mut v = head;
        v.extend(body.iter().cloned());
        v
    };
    let run = |alloc: bool, global: bool, function: bool| {
        let mut c = compiler::new();
        c.compile_program(&program(), String::new(), alloc, global, function).unwrap();
        c.code
    };
    assert_eq!(run(false, false, false), with(vec![]));
    assert_eq!(run(true, false, false), with(vec![Asm::ALLOCLOCALS(1)]));
    assert_eq!(run(false, true, false), with(vec![Asm::ALLOCGLOBBALS(0)]));
    assert_eq!(run(true, true, false), with(vec![Asm::ALLOCGLOBBALS(0), Asm::ALLOCLOCALS(1)]));
    // a function body gets no local frame, whatever `alloc` says
    assert_eq!(run(true, false, true), with(vec![]));
    assert_eq!(run(false, false, true), with(vec![]));
    assert_eq!(run(true, true, true), with(vec![Asm::ALLOCGLOBBALS(0)]));
}

#[test]
fn program_is_compiled_onto_existing_instructions() {
    let mut c = compiler::new();
    c.code.push(Asm::DUP);
    c.output.push(3);
    let program = Ast { program: vec![Statement::Pass] };
    let bytes = c.compile_program(&program, "a".to_string(), true, true, false).unwrap();
    assert_eq!(
        c.code,
        vec![Asm::ALLOCGLOBBALS(0), Asm::ALLOCLOCALS(0), Asm::DUP, Asm::RET(false)]
    );
    assert_eq!(bytes, vec![3]);
}

#[test]
fn empty_program_is_just_the_terminator() {
    let mut c = compiler::new();
    assert_eq!(compile(&mut c, vec![]), Ok(vec![]));
    assert_eq!(c.code, vec![Asm::RET(false)]);
}

#[test]
fn let_reuses_the_slot_of_a_known_local() {
    let mut c = with_locals(&["a", "x"]);
    compile(
        &mut c,
        vec![
            Statement::Let(TType::Int, "x".to_string(), num(1)),
            Statement::Let(TType::Int, "y".to_string(), num(2)),
            Statement::Let(TType::Int, "y".to_string(), num(3)),
        ],
    )
    .unwrap();
    assert_eq!(
        c.code,
        vec![
            Asm::INTEGER(1),
            Asm::STORE(1),
            Asm::INTEGER(2),
            Asm::STORE(2),
            Asm::INTEGER(3),
            Asm::STORE(2),
            Asm::RET(false),
        ]
    );
    assert_eq!(c.variables.len(), 3);
}

#[test]
fn if_else_layout() {
    let mut c = with_locals(&["x", "y"]);
    let stmt = Statement::If(
        TType::Void,
        binop(TType::Bool, Operator::GreaterThan, var("x", TType::Int), num(0)),
        vec![assign("y", 1)],
        Some(vec![assign("y", 2)]),
    );
    compile(&mut c, vec![stmt]).unwrap();
    let (l1, l2) = (0, 1);
    assert_ne!(l1, l2);
    assert_eq!(
        c.code,
        vec![
            Asm::GET(0),
            Asm::INTEGER(0),
            Asm::IGTR,
            Asm::JUMPIFFALSE(l1),
            Asm::INTEGER(1),
            Asm::STACKREF(1),
            Asm::ASSIGN,
            Asm::JMP(l2),
            Asm::LABEL(l1),
            Asm::INTEGER(2),
            Asm::STACKREF(1),
            Asm::ASSIGN,
            Asm::LABEL(l2),
            Asm::RET(false),
        ]
    );
}

#[test]
fn if_without_alternative() {
    let mut c = with_locals(&["x", "y"]);
    let stmt = Statement::If(TType::Void, var("x", TType::Bool), vec![assign("y", 1)], None);
    compile(&mut c, vec![stmt]).unwrap();
    assert_eq!(
        c.code,
        vec![
            Asm::GET(0),
            Asm::JUMPIFFALSE(0),
            Asm::INTEGER(1),
            Asm::STACKREF(1),
            Asm::ASSIGN,
            Asm::LABEL(0),
            Asm::RET(false),
        ]
    );
    // the second label id is reserved even when it is not placed
    assert_eq!(c.gen, Gen::starting_at(2));
}

#[test]
fn while_loop_layout_and_break() {
    let mut c = with_locals(&["x"]);
    let stmt = Statement::While(
        var("x", TType::Bool),
        vec![assign("x", 0), Statement::Break],
    );
    compile(&mut c, vec![stmt]).unwrap();
    assert_eq!(
        c.code,
        vec![
            Asm::LABEL(0),
            Asm::GET(0),
            Asm::JUMPIFFALSE(1),
            Asm::INTEGER(0),
            Asm::STACKREF(0),
            Asm::ASSIGN,
            Asm::JMP(1),
            Asm::BJMP(0),
            Asm::LABEL(1),
            Asm::RET(false),
        ]
    );
    assert!(c.breaks.is_empty());
}

#[test]
fn for_loop_layout() {
    let mut c = with_locals(&["i"]);
    let stmt = Statement::For(
        binop(TType::Void, Operator::Assignment, var("i", TType::Int), num(0)),
        binop(TType::Bool, Operator::LessThan, var("i", TType::Int), num(10)),
        binop(TType::Void, Operator::AdditionAssignment, var("i", TType::Int), num(1)),
        vec![Statement::Break],
    );
    compile(&mut c, vec![stmt]).unwrap();
    assert_eq!(
        c.code,
        vec![
            Asm::INTEGER(0),
            Asm::STACKREF(0),
            Asm::ASSIGN,
            Asm::LABEL(0),
            Asm::GET(0),
            Asm::INTEGER(10),
            Asm::ILSS,
            Asm::JUMPIFFALSE(1),
            Asm::JMP(1),
            Asm::INTEGER(1),
            Asm::GET(0),
            Asm::IADD,
            Asm::STACKREF(0),
            Asm::ASSIGN,
            Asm::BJMP(0),
            Asm::LABEL(1),
            Asm::RET(false),
        ]
    );
    assert!(c.breaks.is_empty());
}

#[test]
fn break_targets_the_innermost_loop() {
    let mut c = with_locals(&["x"]);
    let inner = Statement::While(var("x", TType::Bool), vec![Statement::Break]);
    let outer = Statement::While(var("x", TType::Bool), vec![inner, Statement::Break]);
    compile(&mut c, vec![outer]).unwrap();
    assert_eq!(
        c.code,
        vec![
            Asm::LABEL(0),
            Asm::GET(0),
            Asm::JUMPIFFALSE(1),
            Asm::LABEL(2),
            Asm::GET(0),
            Asm::JUMPIFFALSE(3),
            Asm::JMP(3),
            Asm::BJMP(2),
            Asm::LABEL(3),
            Asm::JMP(1),
            Asm::BJMP(0),
            Asm::LABEL(1),
            Asm::RET(false),
        ]
    );
}

#[test]
fn break_outside_loop_is_a_typed_error() {
    let mut c = compiler::new();
    assert_eq!(compile(&mut c, vec![Statement::Break]), Err(ErrorKind::BreakOutsideLoop));
    // also after a loop has ended
    let mut c = with_locals(&["x"]);
    let looped = Statement::While(var("x", TType::Bool), vec![]);
    assert_eq!(
        compile(&mut c, vec![looped, Statement::Break]),
        Err(ErrorKind::BreakOutsideLoop)
    );
    // and inside a block or a conditional that no loop encloses
    let mut c = with_locals(&["x"]);
    let cond = Statement::If(TType::Void, var("x", TType::Bool), vec![Statement::Break], None);
    assert_eq!(
        compile(&mut c, vec![Statement::Block(vec![cond])]),
        Err(ErrorKind::BreakOutsideLoop)
    );
}

#[test]
fn continue_is_rejected() {
    let mut c = with_locals(&["x"]);
    let looped = Statement::While(var("x", TType::Bool), vec![Statement::Continue]);
    assert_eq!(compile(&mut c, vec![looped]), Err(ErrorKind::ContinueUnsupported));
}

#[test]
fn the_first_failure_ends_compilation() {
    let mut c = compiler::new();
    let r = compile(
        &mut c,
        vec![
            Statement::Let(TType::Int, "x".to_string(), num(1)),
            Statement::Continue,
            Statement::Break,
        ],
    );
    assert_eq!(r, Err(ErrorKind::ContinueUnsupported));
    let e = compiler::new()
        .compile_program(
            &Ast { program: vec![Statement::Break] },
            "lib.nv".to_string(),
            true,
            true,
            false,
        )
        .unwrap_err();
    assert_eq!(e.filepath, "lib.nv");
    assert_eq!(e.message(), "break outside loop");
}

#[test]
fn nested_block_shares_the_scope() {
    let mut c = compiler::new();
    compile(
        &mut c,
        vec![
            Statement::Block(vec![Statement::Let(TType::Int, "x".to_string(), num(1))]),
            Statement::Expression(TType::Int, var("x", TType::Int)),
            Statement::Pass,
        ],
    )
    .unwrap();
    assert_eq!(
        c.code,
        vec![Asm::INTEGER(1), Asm::STORE(0), Asm::GET(0), Asm::RET(false)]
    );
}

#[test]
fn return_with_and_without_value() {
    let mut c = compiler::new();
    compile(
        &mut c,
        vec![
            Statement::Return(TType::Int, num(4), 1, 1),
            Statement::Return(TType::Void, Expr::Empty, 2, 1),
        ],
    )
    .unwrap();
    assert_eq!(
        c.code,
        vec![Asm::INTEGER(4), Asm::RET(true), Asm::RET(false), Asm::RET(false)]
    );
}

#[test]
fn function_declaration_layout() {
    let mut c = with_locals(&["outer"]);
    c.global.insert("earlier".to_string());
    let f = Statement::Function(
        TType::Int,
        "add".to_string(),
        vec![arg("a"), arg("b")],
        vec![
            Statement::Let(
                TType::Int,
                "t".to_string(),
                binop(TType::Int, Operator::Addition, var("a", TType::Int), var("b", TType::Int)),
            ),
            Statement::Return(TType::Int, var("t", TType::Int), 0, 0),
        ],
    );
    compile(&mut c, vec![f]).unwrap();
    assert_eq!(
        c.code,
        vec![
            Asm::FUNCTION(0),
            Asm::OFFSET(2, 1),
            Asm::GET(0),
            Asm::GET(1),
            Asm::IADD,
            Asm::STORE(2),
            Asm::GET(2),
            Asm::RET(true),
            Asm::LABEL(0),
            Asm::STOREGLOBAL(1),
            Asm::RET(false),
        ]
    );
    // the body's locals stay in the body
    assert_eq!(c.variables.len(), 1);
    assert_eq!(c.global.get_index(&"add".to_string()), Some(1));
}

#[test]
fn function_can_call_itself_and_sees_no_outer_locals() {
    let mut c = with_locals(&["outer"]);
    let recursive = Statement::Function(
        TType::Void,
        "f".to_string(),
        vec![],
        vec![Statement::Expression(
            TType::Void,
            Expr::Literal(TType::Void, Atom::Call("f".to_string(), vec![])),
        )],
    );
    compile(&mut c, vec![recursive]).unwrap();
    assert_eq!(
        c.code,
        vec![
            Asm::FUNCTION(0),
            Asm::OFFSET(0, 0),
            Asm::DCALL(0),
            Asm::LABEL(0),
            Asm::STOREGLOBAL(0),
            Asm::RET(false),
        ]
    );
    let mut c = with_locals(&["outer"]);
    let peeking = Statement::Function(
        TType::Void,
        "f".to_string(),
        vec![],
        vec![Statement::Expression(TType::Int, var("outer", TType::Int))],
    );
    assert_eq!(compile(&mut c, vec![peeking]), Err(ErrorKind::UnresolvedIdentifier));
}

#[test]
fn labels_stay_unique_across_nested_bodies() {
    let mut c = with_locals(&["x"]);
    let f = Statement::Function(
        TType::Void,
        "f".to_string(),
        vec![arg("p")],
        vec![Statement::If(TType::Void, var("p", TType::Bool), vec![], None)],
    );
    let after = Statement::If(TType::Void, var("x", TType::Bool), vec![], None);
    compile(&mut c, vec![f, after]).unwrap();
    assert_eq!(
        c.code,
        vec![
            Asm::FUNCTION(0),
            Asm::OFFSET(1, 0),
            Asm::GET(0),
            Asm::JUMPIFFALSE(1),
            Asm::LABEL(1),
            Asm::LABEL(0),
            Asm::STOREGLOBAL(0),
            Asm::GET(0),
            Asm::JUMPIFFALSE(3),
            Asm::LABEL(3),
            Asm::RET(false),
        ]
    );
}

#[test]
fn redeclared_function_takes_a_later_slot_and_shadows() {
    let mut c = compiler::new();
    let decl = || Statement::Function(TType::Void, "f".to_string(), vec![], vec![]);
    let call = Statement::Expression(
        TType::Void,
        Expr::Literal(TType::Void, Atom::Call("f".to_string(), vec![])),
    );
    compile(&mut c, vec![decl(), decl(), call]).unwrap();
    assert_eq!(
        c.code,
        vec![
            Asm::FUNCTION(0),
            Asm::OFFSET(0, 0),
            Asm::LABEL(0),
            Asm::STOREGLOBAL(0),
            Asm::FUNCTION(1),
            Asm::OFFSET(0, 0),
            Asm::LABEL(1),
            Asm::STOREGLOBAL(1),
            Asm::DCALL(1),
            Asm::RET(false),
        ]
    );
}

#[test]
fn struct_declaration_layout() {
    let mut c = compiler::new();
    c.global.insert("earlier".to_string());
    let s = Statement::Struct(
        TType::Custom("Point".to_string()),
        "Point".to_string(),
        vec![field("x"), field("y"), field("type")],
    );
    compile(&mut c, vec![s]).unwrap();
    assert_eq!(
        c.code,
        vec![
            Asm::FUNCTION(0),
            Asm::OFFSET(2, 0),
            Asm::STRING("Point".to_string()),
            Asm::LIST(3),
            Asm::RET(true),
            Asm::LABEL(0),
            Asm::STOREGLOBAL(1),
            Asm::RET(false),
        ]
    );
    assert_eq!(c.global.get_index(&"Point".to_string()), Some(1));
}

#[test]
fn struct_without_fields_has_no_arity() {
    let mut c = compiler::new();
    let s = Statement::Struct(TType::Custom("E".to_string()), "E".to_string(), vec![]);
    assert_eq!(compile(&mut c, vec![s]), Err(ErrorKind::OperandOutOfRange));
}

#[test]
fn statements_run_out_of_labels() {
    let cases = || {
        vec![
            Statement::If(TType::Void, num(1), vec![], None),
            Statement::While(num(1), vec![]),
            Statement::For(Expr::Empty, num(1), Expr::Empty, vec![]),
        ]
    };
    for s in cases() {
        let mut c = compiler::new();
        c.gen = Gen::starting_at(usize::MAX - 1);
        assert_eq!(compile(&mut c, vec![s]), Err(ErrorKind::LabelsExhausted));
    }
    for s in cases() {
        let mut c = compiler::new();
        c.gen = Gen::starting_at(usize::MAX - 2);
        assert!(compile(&mut c, vec![s]).is_ok());
    }
    for s in [
        Statement::Function(TType::Void, "f".to_string(), vec![], vec![]),
        Statement::Struct(TType::Void, "S".to_string(), vec![field("type")]),
    ] {
        let mut c = compiler::new();
        c.gen = Gen::starting_at(usize::MAX);
        assert_eq!(compile(&mut c, vec![s]), Err(ErrorKind::LabelsExhausted));
    }
}

#[test]
fn function_body_inherits_the_enclosing_loop() {
    // a nested body is compiled in a copy of the whole context, loop
    // exits included
    let mut c = with_locals(&["x"]);
    let f = Statement::Function(TType::Void, "f".to_string(), vec![], vec![Statement::Break]);
    let looped = Statement::While(var("x", TType::Bool), vec![f]);
    compile(&mut c, vec![looped]).unwrap();
    assert_eq!(
        c.code,
        vec![
            Asm::LABEL(0),
            Asm::GET(0),
            Asm::JUMPIFFALSE(1),
            Asm::FUNCTION(2),
            Asm::OFFSET(0, 0),
            Asm::JMP(1),
            Asm::LABEL(2),
            Asm::STOREGLOBAL(0),
            Asm::BJMP(0),
            Asm::LABEL(1),
            Asm::RET(false),
        ]
    );
}

#[test]
fn globals_declared_in_a_body_stay_in_the_body() {
    let mut c = compiler::new();
    let inner = Statement::Function(TType::Void, "inner".to_string(), vec![], vec![]);
    let outer = Statement::Function(TType::Void, "outer".to_string(), vec![], vec![inner]);
    let next = Statement::Function(TType::Void, "next".to_string(), vec![], vec![]);
    compile(&mut c, vec![outer, next]).unwrap();
    assert_eq!(
        c.code,
        vec![
            Asm::FUNCTION(0),
            Asm::OFFSET(0, 0),
            Asm::FUNCTION(1),
            Asm::OFFSET(0, 0),
            Asm::LABEL(1),
            Asm::STOREGLOBAL(1),
            Asm::LABEL(0),
            Asm::STOREGLOBAL(0),
            Asm::FUNCTION(2),
            Asm::OFFSET(0, 0),
            Asm::LABEL(2),
            Asm::STOREGLOBAL(1),
            Asm::RET(false),
        ]
    );
    assert_eq!(c.global.len(), 2);
    assert_eq!(c.global.get_index(&"inner".to_string()), None);
}

#[test]
fn every_label_is_placed_at_most_once() {
    let mut c = with_locals(&["x", "y"]);
    let test = || {
        binop(
            TType::Bool,
            Operator::And,
            binop(TType::Bool, Operator::GtrOrEqu, var("x", TType::Int), num(1)),
            binop(TType::Bool, Operator::Or, var("y", TType::Bool), var("y", TType::Bool)),
        )
    };
    let nested = Statement::Function(
        TType::Void,
        "f".to_string(),
        vec![arg("x"), arg("y")],
        vec![
            Statement::While(test(), vec![Statement::Break]),
            Statement::If(TType::Void, test(), vec![], Some(vec![])),
        ],
    );
    let program = vec![
        Statement::If(TType::Void, test(), vec![assign("x", 1)], Some(vec![assign("x", 2)])),
        nested,
        Statement::For(Expr::Empty, test(), Expr::Empty, vec![Statement::Break]),
        Statement::Let(
            TType::Any,
            "k".to_string(),
            Expr::Closure(
                TType::Any,
                vec![],
                vec![Statement::If(TType::Void, num(1), vec![], None)],
                vec![],
            ),
        ),
        Statement::Struct(TType::Void, "S".to_string(), vec![field("type")]),
    ];
    c.gen = Gen::starting_at(5);
    compile(&mut c, program).unwrap();
    let mut placed: Vec<usize> = Vec::new();
    for op in &c.code {
        if let Asm::LABEL(l) = op {
            assert!(!placed.contains(l), "label {} placed twice", l);
            assert!(*l >= 5);
            placed.push(*l);
        }
    }
    assert!(placed.len() > 15);
    // every placed id is used up: the generator has moved past it
    for l in placed {
        let mut after = c.gen;
        assert!(after.generate() > l);
    }
}

#[test]
fn failure_leaves_the_surroundings_alone() {
    let mut c = with_locals(&["x"]);
    c.native_functions.insert("clock".to_string());
    c.bindings.insert("b".to_string());
    c.upvalues.insert("u".to_string());
    c.output.push(9);
    c.entry = 4;
    let program = Ast {
        program: vec![
            Statement::Let(TType::Int, "y".to_string(), num(1)),
            Statement::While(var("x", TType::Bool), vec![Statement::Continue]),
        ],
    };
    let e = c.compile_program(&program, "bad.nv".to_string(), true, true, false).unwrap_err();
    assert_eq!(e.kind, ErrorKind::ContinueUnsupported);
    assert_eq!(e.filepath, "bad.nv");
    assert_eq!(c.filepath, "bad.nv");
    assert_eq!(c.native_functions.get_index(&"clock".to_string()), Some(0));
    assert_eq!(c.native_functions.len(), 1);
    assert_eq!(c.bindings.len(), 1);
    assert_eq!(c.upvalues.len(), 1);
    assert_eq!(c.output, vec![9]);
    assert_eq!(c.get_entry(), 4);
}

#[test]
fn failed_program_keeps_the_earlier_instructions_in_front() {
    let mut c = with_locals(&["x"]);
    c.code.push(Asm::DUP);
    let program = vec![
        Statement::Let(TType::Int, "y".to_string(), num(1)),
        Statement::Break,
    ];
    let r = c.compile_program(&Ast { program }, "f.nv".to_string(), true, true, false);
    assert_eq!(r.unwrap_err().kind, ErrorKind::BreakOutsideLoop);
    // no frame header was put in front, and nothing was removed
    assert_eq!(c.code, vec![Asm::DUP, Asm::INTEGER(1), Asm::STORE(1)]);
}

fn names_a_label(op: &Asm) -> Option<usize> {
    match op {
        Asm::JMP(l) | Asm::BJMP(l) | Asm::JUMPIFFALSE(l) | Asm::FUNCTION(l) | Asm::CLOSURE(l) => {
            Some(*l)
        }
        _ => None,
    }
}

#[test]
fn every_jump_names_exactly_one_label() {
    let mut c = with_locals(&["x", "y"]);
    let test = || {
        binop(
            TType::Bool,
            Operator::Or,
            binop(TType::Bool, Operator::LssOrEqu, var("x", TType::Int), num(1)),
            binop(TType::Bool, Operator::And, var("y", TType::Bool), var("y", TType::Bool)),
        )
    };
    let inner_loop = Statement::While(test(), vec![Statement::Break]);
    let nested = Statement::Function(
        TType::Void,
        "f".to_string(),
        vec![arg("x"), arg("y")],
        vec![
            Statement::For(Expr::Empty, test(), Expr::Empty, vec![inner_loop, Statement::Break]),
            Statement::If(TType::Void, test(), vec![assign("x", 1)], Some(vec![])),
        ],
    );
    let closure = Expr::Closure(
        TType::Any,
        vec![],
        vec![Statement::If(TType::Void, num(1), vec![], None)],
        vec![],
    );
    let program = vec![
        Statement::If(TType::Void, test(), vec![assign("x", 1)], Some(vec![assign("x", 2)])),
        nested,
        Statement::While(test(), vec![Statement::Break, Statement::Break]),
        Statement::Let(TType::Any, "k".to_string(), closure),
        Statement::Struct(TType::Void, "S".to_string(), vec![field("type")]),
        Statement::If(TType::Void, test(), vec![], None),
    ];
    c.compile_program(&Ast { program }, String::new(), true, true, false).unwrap();
    let count = |l: usize| c.code.iter().filter(|op| **op == Asm::LABEL(l)).count();
    let mut jumps = 0;
    for op in &c.code {
        if let Some(l) = names_a_label(op) {
            assert_eq!(count(l), 1, "{:?} has {} labels", op, count(l));
            jumps += 1;
        }
        if let Asm::LABEL(l) = op {
            assert_eq!(count(*l), 1);
        }
    }
    assert!(jumps > 20);
}

#[test]
fn break_in_a_block_compiled_inside_a_loop_names_the_loop_exit() {
    // the one jump whose label is not in the list: the exit of a loop that
    // the caller is in
    let mut c = compiler::new();
    c.breaks.push(40);
    c.gen = Gen::starting_at(41);
    compile(&mut c, vec![Statement::Break]).unwrap();
    assert_eq!(c.code, vec![Asm::JMP(40), Asm::RET(false)]);
}

#[test]
fn failed_program_keeps_its_tables_in_front() {
    let mut c = with_locals(&["x"]);
    c.global.insert("g".to_string());
    c.gen = Gen::starting_at(3);
    let program = vec![
        Statement::Let(TType::Int, "y".to_string(), num(1)),
        Statement::Function(TType::Void, "f".to_string(), vec![], vec![]),
        Statement::While(var("x", TType::Bool), vec![Statement::Continue]),
    ];
    let r = c.compile_program(&Ast { program }, "f.nv".to_string(), true, true, false);
    assert_eq!(r.unwrap_err().kind, ErrorKind::ContinueUnsupported);
    // what was registered before the failure is registered after it
    assert_eq!(c.variables.get_index(&"x".to_string()), Some(0));
    assert_eq!(c.variables.get_index(&"y".to_string()), Some(1));
    assert_eq!(c.global.get_index(&"g".to_string()), Some(0));
    assert_eq!(c.global.get_index(&"f".to_string()), Some(1));
    // the loop that failed is still entered, and no label id went back
    assert_eq!(c.breaks.len(), 1);
    let mut after = c.gen;
    assert!(after.generate() >= 3);
}
