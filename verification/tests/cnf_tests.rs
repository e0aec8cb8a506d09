use cdcl_sat::cnf::{extract_clause_literals, extract_cnf_clauses, is_clause, is_cnf};
use cdcl_sat::expr::Expr;

#[test]
fn test_is_clause_single_var() {
    let expr = Expr::Var(1);
    assert!(is_clause(&expr));
}

#[test]
fn test_is_clause_negated_var() {
    let expr = Expr::Not(Box::new(Expr::Var(1)));
    assert!(is_clause(&expr));
}

#[test]
fn test_is_clause_or_of_literals() {
    let expr = Expr::Or(Box::new(Expr::Var(1)), Box::new(Expr::Not(Box::new(Expr::Var(2)))));
    assert!(is_clause(&expr));
}

#[test]
fn test_is_clause_nested_or() {
    let expr = Expr::Or(
        Box::new(Expr::Or(Box::new(Expr::Var(1)), Box::new(Expr::Var(2)))),
        Box::new(Expr::Var(3)),
    );
    assert!(is_clause(&expr));
}

#[test]
fn test_is_clause_and_not_clause() {
    let expr = Expr::And(Box::new(Expr::Var(1)), Box::new(Expr::Var(2)));
    assert!(!is_clause(&expr));
}

#[test]
fn test_is_clause_double_negation_not_clause() {
    let expr = Expr::Not(Box::new(Expr::Not(Box::new(Expr::Var(1)))));
    assert!(!is_clause(&expr));
}

#[test]
fn test_is_cnf_single_clause() {
    let expr = Expr::Or(Box::new(Expr::Var(1)), Box::new(Expr::Var(2)));
    assert!(is_cnf(&expr));
}

#[test]
fn test_is_cnf_and_of_clauses() {
    let expr = Expr::And(
        Box::new(Expr::Or(Box::new(Expr::Var(1)), Box::new(Expr::Var(2)))),
        Box::new(Expr::Or(Box::new(Expr::Var(3)), Box::new(Expr::Not(Box::new(Expr::Var(4)))))),
    );
    assert!(is_cnf(&expr));
}

#[test]
fn test_is_cnf_nested_and() {
    let expr = Expr::And(
        Box::new(Expr::And(Box::new(Expr::Var(1)), Box::new(Expr::Var(2)))),
        Box::new(Expr::Var(3)),
    );
    assert!(is_cnf(&expr));
}

#[test]
fn test_is_cnf_impl_not_cnf() {
    let expr = Expr::Impl(Box::new(Expr::Var(1)), Box::new(Expr::Var(2)));
    assert!(!is_cnf(&expr));
}

#[test]
fn test_extract_clause_literals() {
    let expr = Expr::Or(Box::new(Expr::Var(1)), Box::new(Expr::Not(Box::new(Expr::Var(2)))));
    let mut lits = Vec::new();
    assert!(extract_clause_literals(&expr, &mut lits));
    assert_eq!(lits.len(), 2);
    assert_eq!(lits[0].var, 1);
    assert!(!lits[0].negated);
    assert_eq!(lits[1].var, 2);
    assert!(lits[1].negated);
}

#[test]
fn test_extract_cnf_clauses() {
    let expr = Expr::And(
        Box::new(Expr::Or(Box::new(Expr::Var(1)), Box::new(Expr::Var(2)))),
        Box::new(Expr::Or(Box::new(Expr::Var(3)), Box::new(Expr::Var(4)))),
    );
    let mut clauses = Vec::new();
    assert!(extract_cnf_clauses(&expr, &mut clauses));
    assert_eq!(clauses.len(), 2);
}

#[test]
fn extract_cnf_rejects_non_cnf() {
    let expr = Expr::Impl(Box::new(Expr::Var(1)), Box::new(Expr::Var(2)));
    let mut clauses = Vec::new();
    assert!(!extract_cnf_clauses(&expr, &mut clauses));
    let mut lits = Vec::new();
    let and = Expr::And(Box::new(Expr::Var(1)), Box::new(Expr::Var(2)));
    assert!(!extract_clause_literals(&and, &mut lits));
}
