use compiler::error::{ErrorKind, NovaError};
use compiler::gen::Gen;
use compiler::table::Table;
use compiler::tokens::{Numeric, TType};

#[test]
fn table_gives_slots_in_insertion_order() {
    let mut t = Table::new();
    assert_eq!(t.len(), 0);
    assert_eq!(t.insert("a".to_string()), 0);
    assert_eq!(t.insert("b".to_string()), 1);
    assert_eq!(t.len(), 2);
    assert_eq!(t.get_index(&"a".to_string()), Some(0));
    assert_eq!(t.get_index(&"b".to_string()), Some(1));
    assert_eq!(t.get_index(&"c".to_string()), None);
    assert_eq!(t.get_index(&"".to_string()), None);
}

#[test]
fn table_lookup_finds_the_latest_duplicate() {
    let mut t = Table::new();
    t.insert("x".to_string());
    t.insert("y".to_string());
    assert_eq!(t.insert("x".to_string()), 2);
    assert_eq!(t.len(), 3);
    assert_eq!(t.get_index(&"x".to_string()), Some(2));
    assert_eq!(t.get_index(&"y".to_string()), Some(1));
}

#[test]
fn table_clear_and_duplicate() {
    let mut t = Table::new();
    t.insert("x".to_string());
    t.insert("y".to_string());
    let copy = t.duplicate();
    assert_eq!(copy, t);
    t.clear();
    assert_eq!(t.len(), 0);
    assert_eq!(t.get_index(&"x".to_string()), None);
    assert_eq!(copy.len(), 2);
    assert_eq!(copy.get_index(&"y".to_string()), Some(1));
    assert_eq!(t.insert("z".to_string()), 0);
}

#[test]
fn generator_counts_up_from_zero() {
    let mut g = Gen::new();
    assert!(!g.is_exhausted());
    assert_eq!(g.generate(), 0);
    assert_eq!(g.generate(), 1);
    assert_eq!(g.generate(), 2);
    assert_eq!(g, Gen::starting_at(3));
}

#[test]
fn generator_ends_at_the_last_id() {
    let mut g = Gen::starting_at(usize::MAX - 1);
    assert!(!g.is_exhausted());
    assert_eq!(g.generate(), usize::MAX - 1);
    assert!(g.is_exhausted());
}

#[test]
fn numeric_class_of_types() {
    assert_eq!(TType::Int.numeric_kind(), Numeric::Int);
    assert_eq!(TType::Float.numeric_kind(), Numeric::Float);
    for t in [
        TType::NoType,
        TType::Any,
        TType::Bool,
        TType::Str,
        TType::Void,
        TType::Custom("Int".to_string()),
        TType::List(Box::new(TType::Int)),
        TType::Function(vec![TType::Int], Box::new(TType::Float)),
        TType::Generic("T".to_string()),
    ] {
        assert_eq!(t.numeric_kind(), Numeric::Other);
    }
    assert!(TType::Void.is_void());
    assert!(!TType::NoType.is_void());
}

#[test]
fn every_kind_has_its_message() {
    let text = |kind: ErrorKind| NovaError { kind, filepath: String::new() }.message();
    assert_eq!(text(ErrorKind::NonNumericOperand), "operator needs an integer or float operand");
    assert_eq!(text(ErrorKind::UnsupportedAssignmentTarget), "unsupported assignment target");
    assert_eq!(text(ErrorKind::UnresolvedIdentifier), "unresolved identifier");
    assert_eq!(text(ErrorKind::UnsupportedOperator), "unsupported operator");
    assert_eq!(text(ErrorKind::UnaryPositive), "unary plus is not supported");
    assert_eq!(text(ErrorKind::BreakOutsideLoop), "break outside loop");
    assert_eq!(text(ErrorKind::ContinueUnsupported), "continue is not supported");
    assert_eq!(text(ErrorKind::OperandOutOfRange), "operand out of range");
    assert_eq!(text(ErrorKind::LabelsExhausted), "out of jump labels");
}
