use compiler::code::Asm;
use compiler::error::ErrorKind;
use compiler::gen::Gen;
use compiler::nodes::{Arg, Atom, Expr, Statement};
use compiler::tokens::{Operator, TType, Unary};
use compiler::Compiler;

fn num(n: i64) -> Expr {
    Expr::Literal(TType::Int, Atom::Integer(n))
}

fn var(name: &str, t: TType) -> Expr {
    Expr::Literal(t, Atom::Id(name.to_string()))
}

fn boolean(b: bool) -> Expr {
    Expr::Literal(TType::Bool, Atom::Bool(b))
}

fn binop(t: TType, op: Operator, l: Expr, r: Expr) -> Expr {
    Expr::Binop(t, op, Box::new(l), Box::new(r))
}

fn call(name: &str, args: Vec<Expr>) -> Expr {
    Expr::Literal(TType::Void, Atom::Call(name.to_string(), args))
}

fn with_locals(names: &[&str]) -> Compiler {
    let mut c = compiler::new();
    for n in names {
        c.variables.insert(n.to_string());
    }
    c
}

fn kind_of(r: Result<(), compiler::error::NovaError>) -> ErrorKind {
    r.unwrap_err().kind
}

#[test]
fn integer_literal_is_exactly_one_push() {
    for n in [0i64, 1, -1, 42, i64::MAX, i64::MIN] {
        let mut c = compiler::new();
        c.compile_expr(&num(n)).unwrap();
        assert_eq!(c.code, vec![Asm::INTEGER(n)]);
        let mut c = compiler::new();
        c.compile_atom(&Atom::Integer(n)).unwrap();
        assert_eq!(c.code, vec![Asm::INTEGER(n)]);
    }
}

#[test]
fn literals_push_their_value() {
    let mut c = compiler::new();
    c.compile_atom(&Atom::Bool(true)).unwrap();
    c.compile_atom(&Atom::Bool(false)).unwrap();
    c.compile_atom(&Atom::Float(1.5f64.to_bits())).unwrap();
    c.compile_atom(&Atom::String("hi".to_string())).unwrap();
    assert_eq!(
        c.code,
        vec![
            Asm::BOOL(true),
            Asm::BOOL(false),
            Asm::FLOAT(1.5f64.to_bits()),
            Asm::STRING("hi".to_string()),
        ]
    );
}

#[test]
fn empty_expression_emits_nothing() {
    let mut c = compiler::new();
    c.compile_expr(&Expr::Empty).unwrap();
    assert!(c.code.is_empty());
}

#[test]
fn identifier_prefers_local_over_global() {
    let mut c = with_locals(&["a", "x"]);
    c.global.insert("x".to_string());
    c.global.insert("g".to_string());
    c.compile_expr(&var("x", TType::Int)).unwrap();
    c.compile_expr(&var("g", TType::Int)).unwrap();
    assert_eq!(c.code, vec![Asm::GET(1), Asm::GETGLOBAL(1)]);
}

#[test]
fn unresolved_identifier_is_an_error() {
    let mut c = compiler::new();
    assert_eq!(kind_of(c.compile_expr(&var("nope", TType::Int))), ErrorKind::UnresolvedIdentifier);
    let mut c = compiler::new();
    assert_eq!(kind_of(c.compile_expr(&call("nope", vec![]))), ErrorKind::UnresolvedIdentifier);
}

#[test]
fn later_registration_shadows_earlier() {
    let mut c = with_locals(&["x", "y", "x"]);
    c.compile_expr(&var("x", TType::Int)).unwrap();
    assert_eq!(c.code, vec![Asm::GET(2)]);
}

#[test]
fn list_constructor_builds_in_order() {
    let mut c = compiler::new();
    let e = Expr::ListConstructor(TType::List(Box::new(TType::Int)), vec![num(1), num(2), num(3)]);
    c.compile_expr(&e).unwrap();
    assert_eq!(
        c.code,
        vec![Asm::INTEGER(1), Asm::INTEGER(2), Asm::INTEGER(3), Asm::LIST(3)]
    );
    let mut c = compiler::new();
    c.compile_expr(&Expr::ListConstructor(TType::Any, vec![])).unwrap();
    assert_eq!(c.code, vec![Asm::LIST(0)]);
}

#[test]
fn field_and_index_load() {
    let mut c = with_locals(&["p", "i"]);
    let field = Expr::Field(TType::Int, "y".to_string(), 2, Box::new(var("p", TType::Any)));
    c.compile_expr(&field).unwrap();
    assert_eq!(c.code, vec![Asm::INTEGER(2), Asm::GET(0), Asm::LIN]);
    let mut c = with_locals(&["p", "i"]);
    let indexed = Expr::Indexed(
        TType::Int,
        "p".to_string(),
        Box::new(var("i", TType::Int)),
        Box::new(var("p", TType::Any)),
    );
    c.compile_expr(&indexed).unwrap();
    assert_eq!(c.code, vec![Asm::GET(1), Asm::GET(0), Asm::LIN]);
}

#[test]
fn unary_operators() {
    let mut c = compiler::new();
    c.compile_expr(&Expr::Unary(TType::Int, Unary::Negitive, Box::new(num(5)))).unwrap();
    c.compile_expr(&Expr::Unary(TType::Bool, Unary::Not, Box::new(boolean(true)))).unwrap();
    assert_eq!(c.code, vec![Asm::INTEGER(5), Asm::NEG, Asm::BOOL(true), Asm::NOT]);
}

#[test]
fn unary_positive_is_rejected() {
    let mut c = compiler::new();
    let e = Expr::Unary(TType::Int, Unary::Positive, Box::new(num(5)));
    assert_eq!(kind_of(c.compile_expr(&e)), ErrorKind::UnaryPositive);
}

#[test]
fn arithmetic_is_typed_by_left_operand() {
    let cases = [
        (Operator::Addition, Asm::IADD, Asm::FADD),
        (Operator::Subtraction, Asm::ISUB, Asm::FSUB),
        (Operator::Multiplication, Asm::IMUL, Asm::FMUL),
        (Operator::Division, Asm::IDIV, Asm::FDIV),
        (Operator::Modulo, Asm::IMODULO, Asm::FMODULO),
        (Operator::GreaterThan, Asm::IGTR, Asm::FGTR),
        (Operator::LessThan, Asm::ILSS, Asm::FLSS),
    ];
    for (op, i, f) in cases {
        let mut c = compiler::new();
        c.compile_expr(&binop(TType::Int, op, num(1), num(2))).unwrap();
        assert_eq!(c.code, vec![Asm::INTEGER(1), Asm::INTEGER(2), i]);
        let mut c = compiler::new();
        let x = Expr::Literal(TType::Float, Atom::Float(2.0f64.to_bits()));
        c.compile_expr(&binop(TType::Float, op, x, num(2))).unwrap();
        assert_eq!(c.code, vec![Asm::FLOAT(2.0f64.to_bits()), Asm::INTEGER(2), f]);
    }
}

#[test]
fn non_numeric_operand_is_rejected() {
    for op in [
        Operator::Addition,
        Operator::Subtraction,
        Operator::Multiplication,
        Operator::Division,
        Operator::Modulo,
        Operator::GreaterThan,
        Operator::LessThan,
        Operator::GtrOrEqu,
        Operator::LssOrEqu,
        Operator::AdditionAssignment,
        Operator::SubtractionAssignment,
    ] {
        let mut c = with_locals(&["s"]);
        let e = binop(TType::Bool, op, var("s", TType::Str), num(1));
        assert_eq!(kind_of(c.compile_expr(&e)), ErrorKind::NonNumericOperand);
    }
}

#[test]
fn operators_without_lowering_are_rejected() {
    for op in [
        Operator::RightArrow,
        Operator::Access,
        Operator::ListAccess,
        Operator::Call,
        Operator::DoubleColon,
        Operator::Colon,
    ] {
        let mut c = compiler::new();
        let e = binop(TType::Int, op, num(1), num(2));
        assert_eq!(kind_of(c.compile_expr(&e)), ErrorKind::UnsupportedOperator);
    }
}

#[test]
fn equality_family() {
    let mut c = compiler::new();
    c.compile_expr(&binop(TType::Bool, Operator::Equality, num(1), num(2))).unwrap();
    assert_eq!(c.code, vec![Asm::INTEGER(1), Asm::INTEGER(2), Asm::EQUALS]);
    let mut c = compiler::new();
    c.compile_expr(&binop(TType::Bool, Operator::NotEqual, num(1), num(2))).unwrap();
    assert_eq!(c.code, vec![Asm::INTEGER(1), Asm::INTEGER(2), Asm::EQUALS, Asm::NOT]);
    let mut c = compiler::new();
    c.compile_expr(&binop(TType::Bool, Operator::Not, boolean(true), boolean(false))).unwrap();
    assert_eq!(c.code, vec![Asm::BOOL(true), Asm::BOOL(false), Asm::NOT]);
}

#[test]
fn and_skips_right_operand_when_left_is_false() {
    let mut c = with_locals(&["a", "b"]);
    let e = binop(TType::Bool, Operator::And, var("a", TType::Bool), var("b", TType::Bool));
    c.compile_expr(&e).unwrap();
    assert_eq!(
        c.code,
        vec![
            Asm::GET(0),
            Asm::DUP,
            Asm::JUMPIFFALSE(0),
            Asm::POP,
            Asm::GET(1),
            Asm::LABEL(0),
        ]
    );
}

#[test]
fn nested_and_uses_distinct_labels_outer_first() {
    let mut c = with_locals(&["a", "b", "c"]);
    let inner = binop(TType::Bool, Operator::And, var("a", TType::Bool), var("b", TType::Bool));
    let e = binop(TType::Bool, Operator::And, inner, var("c", TType::Bool));
    c.compile_expr(&e).unwrap();
    assert_eq!(
        c.code,
        vec![
            Asm::GET(0),
            Asm::DUP,
            Asm::JUMPIFFALSE(1),
            Asm::POP,
            Asm::GET(1),
            Asm::LABEL(1),
            Asm::DUP,
            Asm::JUMPIFFALSE(0),
            Asm::POP,
            Asm::GET(2),
            Asm::LABEL(0),
        ]
    );
}

#[test]
fn or_skips_right_operand_when_left_is_true() {
    let mut c = with_locals(&["a", "b"]);
    let e = binop(TType::Bool, Operator::Or, var("a", TType::Bool), var("b", TType::Bool));
    c.compile_expr(&e).unwrap();
    assert_eq!(
        c.code,
        vec![
            Asm::GET(0),
            Asm::DUP,
            Asm::NOT,
            Asm::JUMPIFFALSE(0),
            Asm::POP,
            Asm::GET(1),
            Asm::LABEL(0),
        ]
    );
}

#[test]
fn greater_or_equal_falls_back_to_equality() {
    let mut c = with_locals(&["x"]);
    let e = binop(TType::Bool, Operator::GtrOrEqu, var("x", TType::Int), num(3));
    c.compile_expr(&e).unwrap();
    assert_eq!(
        c.code,
        vec![
            Asm::GET(0),
            Asm::INTEGER(3),
            Asm::IGTR,
            Asm::DUP,
            Asm::NOT,
            Asm::JUMPIFFALSE(0),
            Asm::POP,
            Asm::GET(0),
            Asm::INTEGER(3),
            Asm::EQUALS,
            Asm::LABEL(0),
        ]
    );
}

#[test]
fn less_or_equal_on_floats() {
    let mut c = with_locals(&["x"]);
    let e = binop(TType::Bool, Operator::LssOrEqu, var("x", TType::Float), var("x", TType::Float));
    c.compile_expr(&e).unwrap();
    assert_eq!(
        c.code,
        vec![
            Asm::GET(0),
            Asm::GET(0),
            Asm::FLSS,
            Asm::DUP,
            Asm::NOT,
            Asm::JUMPIFFALSE(0),
            Asm::POP,
            Asm::GET(0),
            Asm::GET(0),
            Asm::EQUALS,
            Asm::LABEL(0),
        ]
    );
}

#[test]
fn assignment_lowers_value_before_reference() {
    let mut c = with_locals(&["x", "y"]);
    let e = binop(TType::Void, Operator::Assignment, var("y", TType::Int), num(7));
    c.compile_expr(&e).unwrap();
    assert_eq!(c.code, vec![Asm::INTEGER(7), Asm::STACKREF(1), Asm::ASSIGN]);
}

#[test]
fn compound_assignment() {
    let mut c = with_locals(&["x"]);
    let e = binop(TType::Void, Operator::AdditionAssignment, var("x", TType::Int), num(7));
    c.compile_expr(&e).unwrap();
    assert_eq!(
        c.code,
        vec![Asm::INTEGER(7), Asm::GET(0), Asm::IADD, Asm::STACKREF(0), Asm::ASSIGN]
    );
    let mut c = with_locals(&["x"]);
    let e = binop(TType::Void, Operator::SubtractionAssignment, var("x", TType::Float), num(7));
    c.compile_expr(&e).unwrap();
    assert_eq!(
        c.code,
        vec![Asm::INTEGER(7), Asm::GET(0), Asm::FSUB, Asm::STACKREF(0), Asm::ASSIGN]
    );
}

#[test]
fn assignment_to_field_and_element() {
    let mut c = with_locals(&["p", "i"]);
    let target = Expr::Field(TType::Int, "x".to_string(), 1, Box::new(var("p", TType::Any)));
    c.getref_expr(&target).unwrap();
    assert_eq!(c.code, vec![Asm::INTEGER(1), Asm::STACKREF(0), Asm::PIN]);

    let mut c = with_locals(&["p", "i"]);
    let target = Expr::Indexed(
        TType::Int,
        "p".to_string(),
        Box::new(var("i", TType::Int)),
        Box::new(var("p", TType::Any)),
    );
    c.getref_expr(&target).unwrap();
    // the key is pushed as a value, the base as a reference
    assert_eq!(c.code, vec![Asm::GET(1), Asm::STACKREF(0), Asm::PIN]);

    let mut c = with_locals(&["p", "i"]);
    let inner = Expr::Field(TType::Any, "x".to_string(), 3, Box::new(var("p", TType::Any)));
    let target = Expr::Indexed(TType::Int, "p".to_string(), Box::new(num(4)), Box::new(inner));
    c.getref_expr(&target).unwrap();
    assert_eq!(
        c.code,
        vec![Asm::INTEGER(4), Asm::INTEGER(3), Asm::STACKREF(0), Asm::PIN, Asm::PIN]
    );
}

#[test]
fn reference_to_local_atom() {
    let mut c = with_locals(&["a", "b"]);
    c.getref_atom(&Atom::Id("b".to_string())).unwrap();
    assert_eq!(c.code, vec![Asm::STACKREF(1)]);
}

#[test]
fn unsupported_assignment_targets() {
    let targets = vec![
        Expr::Empty,
        num(1),
        boolean(true),
        Expr::Literal(TType::Str, Atom::String("s".to_string())),
        Expr::Literal(TType::Float, Atom::Float(0)),
        call("print", vec![]),
        Expr::ListConstructor(TType::Any, vec![]),
        Expr::Call(TType::Any, "f".to_string(), Box::new(var("f", TType::Any)), vec![]),
        Expr::Unary(TType::Int, Unary::Negitive, Box::new(num(1))),
        binop(TType::Int, Operator::Addition, num(1), num(2)),
        Expr::Closure(TType::Any, vec![], vec![], vec![]),
        Expr::Indexed(
            TType::Int,
            "p".to_string(),
            Box::new(boolean(true)),
            Box::new(var("p", TType::Any)),
        ),
        Expr::Indexed(
            TType::Int,
            "p".to_string(),
            Box::new(binop(TType::Int, Operator::Addition, num(1), num(2))),
            Box::new(var("p", TType::Any)),
        ),
    ];
    for t in targets {
        let mut c = with_locals(&["p", "f"]);
        assert_eq!(kind_of(c.getref_expr(&t)), ErrorKind::UnsupportedAssignmentTarget);
    }
    let mut c = compiler::new();
    assert_eq!(
        kind_of(c.getref_atom(&Atom::Integer(1))),
        ErrorKind::UnsupportedAssignmentTarget
    );
}

#[test]
fn reference_to_unbound_name_is_unresolved() {
    let mut c = with_locals(&["p"]);
    c.global.insert("g".to_string());
    assert_eq!(kind_of(c.getref_expr(&var("g", TType::Int))), ErrorKind::UnresolvedIdentifier);
    let mut c = with_locals(&["p"]);
    let target = Expr::Indexed(
        TType::Int,
        "p".to_string(),
        Box::new(var("missing", TType::Int)),
        Box::new(var("p", TType::Any)),
    );
    assert_eq!(kind_of(c.getref_expr(&target)), ErrorKind::UnresolvedIdentifier);
    let e = binop(TType::Void, Operator::Assignment, var("q", TType::Int), num(7));
    let mut c = with_locals(&["p"]);
    assert_eq!(kind_of(c.compile_expr(&e)), ErrorKind::UnresolvedIdentifier);
}

#[test]
fn field_index_beyond_operand_range() {
    if usize::MAX as u128 > i64::MAX as u128 {
        let mut c = with_locals(&["p"]);
        let e = Expr::Field(
            TType::Int,
            "x".to_string(),
            usize::MAX,
            Box::new(var("p", TType::Any)),
        );
        assert_eq!(kind_of(c.compile_expr(&e)), ErrorKind::OperandOutOfRange);
        let mut c = with_locals(&["p"]);
        let e = Expr::Field(
            TType::Int,
            "x".to_string(),
            usize::MAX,
            Box::new(var("p", TType::Any)),
        );
        assert_eq!(kind_of(c.getref_expr(&e)), ErrorKind::OperandOutOfRange);
    }
}

#[test]
fn builtin_calls_under_both_spellings() {
    for (name, op) in [
        ("print", Asm::PRINT),
        ("super::print", Asm::PRINT),
        ("free", Asm::FREE),
        ("super::free", Asm::FREE),
        ("clone", Asm::CLONE),
        ("super::clone", Asm::CLONE),
    ] {
        let mut c = compiler::new();
        c.compile_expr(&call(name, vec![num(1)])).unwrap();
        assert_eq!(c.code, vec![Asm::INTEGER(1), op]);
    }
}

#[test]
fn builtin_wins_over_tables() {
    let mut c = with_locals(&["print"]);
    c.native_functions.insert("print".to_string());
    c.global.insert("print".to_string());
    c.compile_expr(&call("print", vec![])).unwrap();
    assert_eq!(c.code, vec![Asm::PRINT]);
}

#[test]
fn call_resolution_order() {
    // native first
    let mut c = with_locals(&["f"]);
    c.native_functions.insert("other".to_string());
    c.native_functions.insert("f".to_string());
    c.global.insert("f".to_string());
    c.compile_expr(&call("f", vec![num(1), num(2)])).unwrap();
    assert_eq!(c.code, vec![Asm::INTEGER(1), Asm::INTEGER(2), Asm::NATIVE(1)]);
    // then local
    let mut c = with_locals(&["a", "f"]);
    c.global.insert("f".to_string());
    c.compile_expr(&call("f", vec![num(1)])).unwrap();
    assert_eq!(c.code, vec![Asm::INTEGER(1), Asm::GET(1), Asm::CALL]);
    // then global
    let mut c = with_locals(&["a"]);
    c.global.insert("g".to_string());
    c.global.insert("f".to_string());
    c.compile_expr(&call("f", vec![])).unwrap();
    assert_eq!(c.code, vec![Asm::DCALL(1)]);
}

#[test]
fn call_on_an_expression() {
    let mut c = with_locals(&["f"]);
    let e = Expr::Call(
        TType::Int,
        "f".to_string(),
        Box::new(var("f", TType::Any)),
        vec![num(1), num(2)],
    );
    c.compile_expr(&e).unwrap();
    assert_eq!(
        c.code,
        vec![Asm::INTEGER(1), Asm::INTEGER(2), Asm::STACKREF(0), Asm::CALL]
    );
}

#[test]
fn argument_failure_comes_before_callee_failure() {
    let mut c = compiler::new();
    let bad_arg = Expr::Unary(TType::Int, Unary::Positive, Box::new(num(1)));
    assert_eq!(
        kind_of(c.compile_expr(&call("missing", vec![bad_arg]))),
        ErrorKind::UnaryPositive
    );
}

#[test]
fn closure_captures_in_declaration_order() {
    let mut c = with_locals(&["b", "x", "a"]);
    let body = vec![Statement::Return(
        TType::Int,
        binop(
            TType::Int,
            Operator::Addition,
            binop(TType::Int, Operator::Addition, var("p", TType::Int), var("a", TType::Int)),
            var("b", TType::Int),
        ),
        0,
        0,
    )];
    let e = Expr::Closure(
        TType::Any,
        vec![Arg { identifier: "p".to_string(), ttype: TType::Int }],
        body,
        vec!["a".to_string(), "b".to_string()],
    );
    c.compile_expr(&e).unwrap();
    assert_eq!(
        c.code,
        vec![
            // the enclosing scope fetches a, then b
            Asm::GET(2),
            Asm::GET(0),
            Asm::LIST(2),
            Asm::CLOSURE(0),
            Asm::OFFSET(3, 0),
            // inside, the locals are p, a, b
            Asm::GET(0),
            Asm::GET(1),
            Asm::IADD,
            Asm::GET(2),
            Asm::IADD,
            Asm::RET(true),
            Asm::LABEL(0),
        ]
    );
    // the enclosing locals are untouched, the label counter moved on
    assert_eq!(c.variables.len(), 3);
    assert_eq!(c.gen, Gen::starting_at(1));
}

#[test]
fn closure_counts_locals_declared_in_its_body() {
    let mut c = with_locals(&["a"]);
    let body = vec![
        Statement::Let(TType::Int, "t".to_string(), num(1)),
        Statement::Let(TType::Int, "u".to_string(), num(2)),
    ];
    let e = Expr::Closure(TType::Any, vec![], body, vec!["a".to_string()]);
    c.compile_expr(&e).unwrap();
    assert_eq!(
        c.code,
        vec![
            Asm::GET(0),
            Asm::LIST(1),
            Asm::CLOSURE(0),
            Asm::OFFSET(1, 2),
            Asm::INTEGER(1),
            Asm::STORE(1),
            Asm::INTEGER(2),
            Asm::STORE(2),
            Asm::LABEL(0),
        ]
    );
}

#[test]
fn closure_with_unbound_capture_is_rejected() {
    let mut c = with_locals(&["a"]);
    c.global.insert("g".to_string());
    let e = Expr::Closure(TType::Any, vec![], vec![], vec!["g".to_string()]);
    assert_eq!(kind_of(c.compile_expr(&e)), ErrorKind::UnresolvedIdentifier);
}

#[test]
fn labels_run_out() {
    let e = binop(TType::Bool, Operator::And, boolean(true), boolean(false));
    let mut c = compiler::new();
    c.gen = Gen::starting_at(usize::MAX);
    assert_eq!(kind_of(c.compile_expr(&e)), ErrorKind::LabelsExhausted);
    // the last id itself can still be issued
    let mut c = compiler::new();
    c.gen = Gen::starting_at(usize::MAX - 1);
    c.compile_expr(&e).unwrap();
    assert_eq!(c.code[2], Asm::JUMPIFFALSE(usize::MAX - 1));
    let ge = binop(TType::Bool, Operator::GtrOrEqu, num(1), num(2));
    let mut c = compiler::new();
    c.gen = Gen::starting_at(usize::MAX);
    assert_eq!(kind_of(c.compile_expr(&ge)), ErrorKind::LabelsExhausted);
    let closure = Expr::Closure(TType::Any, vec![], vec![], vec![]);
    let mut c = compiler::new();
    c.gen = Gen::starting_at(usize::MAX);
    assert_eq!(kind_of(c.compile_expr(&closure)), ErrorKind::LabelsExhausted);
}

#[test]
fn diagnostic_names_the_file_and_has_a_message() {
    let mut c = compiler::new();
    c.filepath = "main.nv".to_string();
    let e = c.compile_expr(&var("nope", TType::Int)).unwrap_err();
    assert_eq!(e.kind, ErrorKind::UnresolvedIdentifier);
    assert_eq!(e.filepath, "main.nv");
    assert_eq!(e.message(), "unresolved identifier");
}

#[test]
fn failure_only_appends_and_keeps_the_tables() {
    let mut c = with_locals(&["x"]);
    c.global.insert("g".to_string());
    c.breaks.push(7);
    c.code.push(Asm::DUP);
    let bad = Expr::Unary(TType::Int, Unary::Positive, Box::new(num(5)));
    let e = Expr::ListConstructor(TType::Any, vec![num(1), var("x", TType::Int), bad]);
    assert_eq!(kind_of(c.compile_expr(&e)), ErrorKind::UnaryPositive);
    // what was there is still there, in front
    assert_eq!(c.code[0], Asm::DUP);
    assert_eq!(c.code, vec![Asm::DUP, Asm::INTEGER(1), Asm::GET(0)]);
    assert_eq!(c.variables.len(), 1);
    assert_eq!(c.variables.get_index(&"x".to_string()), Some(0));
    assert_eq!(c.global.len(), 1);
    assert_eq!(c.breaks, vec![7]);
}

#[test]
fn unresolved_callee_appends_no_call() {
    let mut c = compiler::new();
    c.code.push(Asm::POP);
    let call = Atom::Call("nope".to_string(), vec![]);
    assert_eq!(kind_of(c.compile_atom(&call)), ErrorKind::UnresolvedIdentifier);
    assert_eq!(c.code, vec![Asm::POP]);
    // the arguments were lowered before the callee was looked up
    let mut c = compiler::new();
    let call = Atom::Call("nope".to_string(), vec![num(1)]);
    assert_eq!(kind_of(c.compile_atom(&call)), ErrorKind::UnresolvedIdentifier);
    assert_eq!(c.code, vec![Asm::INTEGER(1)]);
}

#[test]
fn failed_reference_leaves_the_context_untouched() {
    let mut c = with_locals(&["x"]);
    c.global.insert("g".to_string());
    c.code.push(Asm::POP);
    assert_eq!(
        kind_of(c.getref_atom(&Atom::Id("g".to_string()))),
        ErrorKind::UnresolvedIdentifier
    );
    assert_eq!(c.code, vec![Asm::POP]);
    assert_eq!(c.variables.len(), 1);
    assert_eq!(c.global.len(), 1);
    assert_eq!(c.gen, Gen::new());
    assert!(c.getref_atom(&Atom::Id("x".to_string())).is_ok());
    assert_eq!(c.code, vec![Asm::POP, Asm::STACKREF(0)]);
}

#[test]
fn failed_target_keeps_what_was_emitted_in_front() {
    let mut c = with_locals(&["p"]);
    c.code.push(Asm::POP);
    let target = Expr::Indexed(
        TType::Int,
        "p".to_string(),
        Box::new(num(2)),
        Box::new(var("missing", TType::Any)),
    );
    assert_eq!(kind_of(c.getref_expr(&target)), ErrorKind::UnresolvedIdentifier);
    assert_eq!(c.code, vec![Asm::POP, Asm::INTEGER(2)]);
    assert_eq!(c.variables.len(), 1);
}
