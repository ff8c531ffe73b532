use compiler::code::Asm;
use compiler::nodes::{Arg, Ast, Atom, Expr, Field, Statement};
use compiler::tokens::{Operator, TType, Unary};
use compiler::Compiler;

/// Walks the list once and adds up what each instruction pushes and pops;
/// a function or closure body is skipped up to its label. `None` when a
/// call is met or a body does not end.
fn net_effect(code: &[Asm]) -> Option<i64> {
    let mut depth: i64 = 0;
    let mut skipping: Option<usize> = None;
    for op in code {
        if let Some(label) = skipping {
            if *op == Asm::LABEL(label) {
                skipping = None;
            }
            continue;
        }
        depth += match op {
            Asm::ALLOCGLOBBALS(_) | Asm::ALLOCLOCALS(_) | Asm::OFFSET(_, _) => 0,
            Asm::STORE(_) | Asm::STOREGLOBAL(_) => -1,
            Asm::GET(_) | Asm::GETGLOBAL(_) | Asm::STACKREF(_) => 1,
            Asm::DCALL(_) | Asm::NATIVE(_) | Asm::CALL => return None,
            Asm::LIST(n) => 1 - *n as i64,
            Asm::FUNCTION(label) => {
                skipping = Some(*label);
                1
            }
            Asm::CLOSURE(label) => {
                skipping = Some(*label);
                0
            }
            Asm::LABEL(_) | Asm::JMP(_) | Asm::BJMP(_) => 0,
            Asm::JUMPIFFALSE(_) => -1,
            Asm::INTEGER(_) | Asm::FLOAT(_) | Asm::BOOL(_) | Asm::STRING(_) => 1,
            Asm::RET(value) => {
                if *value {
                    -1
                } else {
                    0
                }
            }
            Asm::PIN | Asm::LIN | Asm::PRINT | Asm::FREE | Asm::POP => -1,
            Asm::CLONE | Asm::NEG | Asm::NOT => 0,
            Asm::DUP => 1,
            Asm::ASSIGN => -2,
            _ => -1,
        };
    }
    if skipping.is_some() {
        None
    } else {
        Some(depth)
    }
}

fn num(n: i64) -> Expr {
    Expr::Literal(TType::Int, Atom::Integer(n))
}

fn var(name: &str, t: TType) -> Expr {
    Expr::Literal(t, Atom::Id(name.to_string()))
}

fn binop(t: TType, op: Operator, l: Expr, r: Expr) -> Expr {
    Expr::Binop(t, op, Box::new(l), Box::new(r))
}

fn call(name: &str, args: Vec<Expr>) -> Expr {
    Expr::Literal(TType::Void, Atom::Call(name.to_string(), args))
}

fn context() -> Compiler {
    let mut c = compiler::new();
    for n in ["x", "y", "p", "f"] {
        c.variables.insert(n.to_string());
    }
    c.global.insert("g".to_string());
    c
}

fn effect_of_expr(e: &Expr) -> Option<i64> {
    let mut c = context();
    c.compile_expr(e).unwrap();
    net_effect(&c.code)
}

fn effect_of_program(program: Vec<Statement>) -> Option<i64> {
    let mut c = context();
    c.compile_program(&Ast { program }, String::new(), true, true, false).unwrap();
    net_effect(&c.code)
}

fn values() -> Vec<Expr> {
    let closure_body = vec![
        Statement::Let(TType::Int, "t".to_string(), num(1)),
        Statement::If(
            TType::Void,
            var("a", TType::Bool),
            vec![Statement::Return(TType::Int, var("x", TType::Int), 0, 0)],
            None,
        ),
        // left unbalanced on purpose: the body is not run where it stands
        Statement::Expression(TType::Int, num(3)),
    ];
    vec![
        num(7),
        Expr::Literal(TType::Bool, Atom::Bool(true)),
        Expr::Literal(TType::Float, Atom::Float(2.5f64.to_bits())),
        Expr::Literal(TType::Str, Atom::String("s".to_string())),
        var("x", TType::Int),
        var("g", TType::Any),
        Expr::ListConstructor(TType::Any, vec![]),
        Expr::ListConstructor(TType::Any, vec![num(1), var("x", TType::Int), num(3)]),
        Expr::Field(TType::Int, "a".to_string(), 0, Box::new(var("p", TType::Any))),
        Expr::Indexed(
            TType::Int,
            "p".to_string(),
            Box::new(num(0)),
            Box::new(var("p", TType::Any)),
        ),
        Expr::Unary(TType::Int, Unary::Negitive, Box::new(num(1))),
        Expr::Unary(TType::Bool, Unary::Not, Box::new(var("x", TType::Bool))),
        binop(TType::Int, Operator::Addition, num(1), num(2)),
        binop(TType::Float, Operator::Division, var("x", TType::Float), num(2)),
        binop(TType::Int, Operator::Modulo, num(1), num(2)),
        binop(TType::Bool, Operator::LessThan, num(1), num(2)),
        binop(TType::Bool, Operator::Equality, num(1), num(2)),
        binop(TType::Bool, Operator::NotEqual, num(1), num(2)),
        binop(TType::Bool, Operator::GtrOrEqu, num(1), num(2)),
        binop(TType::Bool, Operator::LssOrEqu, var("x", TType::Float), num(2)),
        binop(TType::Bool, Operator::And, var("x", TType::Bool), var("y", TType::Bool)),
        binop(TType::Bool, Operator::Or, var("x", TType::Bool), var("y", TType::Bool)),
        call("clone", vec![var("p", TType::Any)]),
        Expr::Closure(
            TType::Any,
            vec![Arg { identifier: "a".to_string(), ttype: TType::Bool }],
            closure_body,
            vec!["x".to_string(), "y".to_string()],
        ),
    ]
}

fn effects() -> Vec<Expr> {
    vec![
        Expr::Empty,
        binop(TType::Void, Operator::Assignment, var("x", TType::Int), num(1)),
        binop(
            TType::Void,
            Operator::Assignment,
            Expr::Field(TType::Int, "a".to_string(), 1, Box::new(var("p", TType::Any))),
            num(1),
        ),
        binop(
            TType::Void,
            Operator::Assignment,
            Expr::Indexed(
                TType::Int,
                "p".to_string(),
                Box::new(var("x", TType::Int)),
                Box::new(var("p", TType::Any)),
            ),
            num(1),
        ),
        binop(TType::Void, Operator::AdditionAssignment, var("x", TType::Int), num(1)),
        binop(TType::Void, Operator::SubtractionAssignment, var("x", TType::Float), num(1)),
        call("print", vec![num(1)]),
        call("super::free", vec![var("p", TType::Any)]),
    ]
}

#[test]
fn value_expressions_net_exactly_one() {
    for e in values() {
        assert_eq!(effect_of_expr(&e), Some(1), "{:?}", e);
    }
    // and so do values built from values
    let all = values();
    let nested = Expr::ListConstructor(TType::Any, all);
    assert_eq!(effect_of_expr(&nested), Some(1));
}

#[test]
fn assignments_and_consuming_calls_net_zero() {
    for e in effects() {
        assert_eq!(effect_of_expr(&e), Some(0), "{:?}", e);
    }
}

#[test]
fn balanced_statements_net_zero() {
    let mut program = vec![Statement::Pass];
    for (i, e) in values().into_iter().enumerate() {
        program.push(Statement::Let(TType::Any, format!("v{}", i), e));
    }
    for e in effects() {
        program.push(Statement::Expression(TType::Void, e));
    }
    let body = || {
        vec![
            Statement::Expression(
                TType::Void,
                binop(TType::Void, Operator::Assignment, var("x", TType::Int), num(1)),
            ),
            Statement::Block(vec![Statement::Let(TType::Int, "z".to_string(), num(1))]),
        ]
    };
    program.push(Statement::If(TType::Void, var("x", TType::Bool), body(), None));
    program.push(Statement::If(TType::Void, var("x", TType::Bool), body(), Some(body())));
    let mut looped = body();
    looped.push(Statement::Break);
    program.push(Statement::While(var("x", TType::Bool), looped));
    program.push(Statement::For(
        binop(TType::Void, Operator::Assignment, var("x", TType::Int), num(0)),
        binop(TType::Bool, Operator::LessThan, var("x", TType::Int), num(10)),
        binop(TType::Void, Operator::AdditionAssignment, var("x", TType::Int), num(1)),
        body(),
    ));
    program.push(Statement::Function(
        TType::Int,
        "twice".to_string(),
        vec![Arg { identifier: "n".to_string(), ttype: TType::Int }],
        vec![Statement::Return(
            TType::Int,
            binop(TType::Int, Operator::Addition, var("n", TType::Int), var("n", TType::Int)),
            0,
            0,
        )],
    ));
    program.push(Statement::Struct(
        TType::Custom("P".to_string()),
        "P".to_string(),
        vec![
            Field { identifier: "a".to_string(), ttype: TType::Int },
            Field { identifier: "b".to_string(), ttype: TType::Int },
            Field { identifier: "type".to_string(), ttype: TType::Str },
        ],
    ));
    program.push(Statement::Return(TType::Int, num(0), 0, 0));
    program.push(Statement::Return(TType::Void, Expr::Empty, 0, 0));
    // after each statement the stack is as deep as before
    let mut c = context();
    for s in program {
        let done = c.code.len();
        c.compile_program(&Ast { program: vec![s] }, String::new(), false, false, false).unwrap();
        assert_eq!(net_effect(&c.code[done..]), Some(0));
    }
    assert_eq!(net_effect(&c.code), Some(0));
}

#[test]
fn forms_outside_the_classification() {
    // an expression statement keeps the value of its expression
    assert_eq!(
        effect_of_program(vec![Statement::Expression(TType::Int, num(1))]),
        Some(1)
    );
    // the infix `not` lowers both operands and replaces only the upper one
    let e = binop(
        TType::Bool,
        Operator::Not,
        Expr::Literal(TType::Bool, Atom::Bool(true)),
        Expr::Literal(TType::Bool, Atom::Bool(false)),
    );
    assert_eq!(effect_of_expr(&e), Some(2));
    // a call of a user function carries no arity
    assert_eq!(effect_of_expr(&call("g", vec![num(1), num(2)])), None);
    assert_eq!(effect_of_expr(&call("f", vec![])), None);
    let on_value = Expr::Call(
        TType::Any,
        "f".to_string(),
        Box::new(var("f", TType::Any)),
        vec![num(1)],
    );
    assert_eq!(effect_of_expr(&on_value), None);
}

/// The depth before every instruction that is run where it stands, and
/// after the last one; `None` for the instructions of skipped bodies.
fn depths(code: &[Asm]) -> Vec<Option<i64>> {
    let mut out = Vec::new();
    let mut depth: i64 = 0;
    let mut skipping: Option<usize> = None;
    for op in code {
        if let Some(label) = skipping {
            out.push(None);
            if *op == Asm::LABEL(label) {
                skipping = None;
            }
            continue;
        }
        out.push(Some(depth));
        if let Asm::FUNCTION(l) | Asm::CLOSURE(l) = op {
            skipping = Some(*l);
        }
        depth += net_effect(std::slice::from_ref(op)).unwrap_or(match op {
            Asm::FUNCTION(_) => 1,
            _ => 0,
        });
    }
    out.push(Some(depth));
    out
}

fn branching_program() -> Vec<Statement> {
    let test = || {
        binop(
            TType::Bool,
            Operator::Or,
            binop(TType::Bool, Operator::GtrOrEqu, var("x", TType::Int), num(1)),
            binop(TType::Bool, Operator::And, var("y", TType::Bool), var("y", TType::Bool)),
        )
    };
    let set = |n: i64| {
        Statement::Expression(
            TType::Void,
            binop(TType::Void, Operator::Assignment, var("x", TType::Int), num(n)),
        )
    };
    vec![
        Statement::If(TType::Void, test(), vec![set(1)], Some(vec![set(2), set(3)])),
        Statement::If(TType::Void, test(), vec![set(1)], None),
        Statement::While(
            test(),
            vec![
                set(4),
                Statement::If(TType::Void, test(), vec![Statement::Break], None),
                Statement::While(test(), vec![Statement::Break]),
            ],
        ),
        Statement::For(
            binop(TType::Void, Operator::Assignment, var("x", TType::Int), num(0)),
            test(),
            binop(TType::Void, Operator::AdditionAssignment, var("x", TType::Int), num(1)),
            vec![set(5), Statement::Break],
        ),
        Statement::Let(TType::Bool, "z".to_string(), test()),
    ]
}

#[test]
fn every_jump_arrives_at_the_depth_of_its_label() {
    let mut c = context();
    c.compile_program(&Ast { program: branching_program() }, String::new(), true, true, false)
        .unwrap();
    let at = depths(&c.code);
    let mut jumps = 0;
    for (i, op) in c.code.iter().enumerate() {
        let target = match op {
            Asm::JMP(l) | Asm::BJMP(l) | Asm::JUMPIFFALSE(l) => *l,
            _ => continue,
        };
        if at[i].is_none() {
            continue;
        }
        let label = c.code.iter().position(|o| *o == Asm::LABEL(target)).unwrap();
        // the depth after the jump is the depth before its label
        assert_eq!(at[i + 1], at[label], "jump {} to label {}", i, label);
        jumps += 1;
    }
    assert!(jumps > 25);
}

#[test]
fn depth_never_falls_below_entry() {
    let mut c = context();
    c.compile_program(&Ast { program: branching_program() }, String::new(), true, true, false)
        .unwrap();
    for d in depths(&c.code).into_iter().flatten() {
        assert!(d >= 0);
    }
    for e in values() {
        let mut c = context();
        c.compile_expr(&e).unwrap();
        for d in depths(&c.code).into_iter().flatten() {
            assert!(d >= 0, "{:?}", e);
        }
    }
}
