use cdcl_sat::literal::{Clause, Literal};

#[test]
fn test_positive_literal() {
    let lit = Literal::positive(5);
    assert_eq!(lit.var, 5);
    assert!(!lit.negated);
    assert_eq!(lit.as_signed(), 5);
}

#[test]
fn test_negative_literal() {
    let lit = Literal::negative(5);
    assert_eq!(lit.var, 5);
    assert!(lit.negated);
    assert_eq!(lit.as_signed(), -5);
}

#[test]
fn test_literal_equality() {
    let lit1 = Literal::positive(3);
    let lit2 = Literal::positive(3);
    let lit3 = Literal::negative(3);
    assert_eq!(lit1, lit2);
    assert_ne!(lit1, lit3);
}

#[test]
fn test_clause_creation() {
    let clause = Clause::new(vec![Literal::positive(1), Literal::negative(2)]);
    assert_eq!(clause.len(), 2);
    assert!(!clause.is_unit());
    assert!(!clause.is_empty());
}

#[test]
fn literal_test_unit_clause() {
    let clause = Clause::unit(Literal::positive(7));
    assert_eq!(clause.len(), 1);
    assert!(clause.is_unit());
    assert_eq!(clause.literals[0].var, 7);
}
