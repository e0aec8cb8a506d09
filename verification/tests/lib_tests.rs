use cdcl_sat::parser::ParseError;
use cdcl_sat::solver::SolverError;
use cdcl_sat::{solve_formula, SolveError};

#[test]
fn test_ex1_single_var() {
    assert!(solve_formula("x1").unwrap());
}

#[test]
fn test_ex2_contradiction() {
    assert!(!solve_formula("(and x1 (not x1))").unwrap());
}

#[test]
fn test_ex3_nested_or() {
    assert!(solve_formula("(or x1 (not (and x2 x3)))").unwrap());
}

#[test]
fn test_all_operators_combined() {
    let formula = "(and (impl x1 x2) (equiv x3 (or x1 (not x4))))";
    assert!(solve_formula(formula).unwrap());
}

#[test]
fn test_cnf_direct_extraction() {
    let formula = "(and (or x1 x2) (or (not x1) x3))";
    assert!(solve_formula(formula).unwrap());
}

#[test]
fn test_larger_cnf() {
    let formula = "(and (and (and (or x1 x2) (or (not x1) x3)) (or (not x2) x4)) (or x1 (not x4)))";
    assert!(solve_formula(formula).unwrap());
}

#[test]
fn test_unsat_3_clauses() {
    let formula = "(and (and x1 (or (not x1) x2)) (not x2))";
    assert!(!solve_formula(formula).unwrap());
}

#[test]
fn test_chain_implication_sat() {
    let formula = "(and (and (and (impl x1 x2) (impl x2 x3)) (impl x3 x4)) (and x1 x4))";
    assert!(solve_formula(formula).unwrap());
}

#[test]
fn test_chain_implication_unsat() {
    let formula = "(and (and (and (impl x1 x2) (impl x2 x3)) x1) (not x3))";
    assert!(!solve_formula(formula).unwrap());
}

#[test]
fn test_equiv_chain_sat() {
    let formula = "(and (and (equiv x1 x2) (equiv x2 x3)) (and x1 x3))";
    assert!(solve_formula(formula).unwrap());
}

#[test]
fn test_equiv_chain_unsat() {
    let formula = "(and (and (equiv x1 x2) (equiv x2 x3)) (and x1 (not x3)))";
    assert!(!solve_formula(formula).unwrap());
}

#[test]
fn test_tautology_sat() {
    assert!(solve_formula("(or x1 (not x1))").unwrap());
}

#[test]
fn test_impl_sat() {
    assert!(solve_formula("(impl x1 x2)").unwrap());
}

#[test]
fn test_equiv_sat() {
    assert!(solve_formula("(equiv x1 x2)").unwrap());
}

#[test]
fn test_parse_error_handling() {
    let result = solve_formula("(foo x1 x2)");
    assert!(result.is_err());
    assert!(matches!(result, Err(SolveError::Parse(_))));
}

#[test]
fn test_solve_error_display() {
    let parse_err = SolveError::Parse(ParseError::UnknownOperator("test".to_string()));
    let msg = parse_err.to_string();
    assert!(msg.contains("Parse error"));

    let solver_err = SolveError::Solver(SolverError::InternalError("test".to_string()));
    let msg2 = solver_err.to_string();
    assert!(msg2.contains("Solver error"));
}

#[test]
fn test_solve_error_source() {
    let parse_err = SolveError::Parse(ParseError::UnknownOperator("test".to_string()));
    assert!(parse_err.source().is_some());

    let solver_err = SolveError::Solver(SolverError::InternalError("test".to_string()));
    assert!(solver_err.source().is_some());
}

#[test]
fn test_solve_error_from_parse_error() {
    let parse_err = ParseError::UnknownOperator("test".to_string());
    let solve_err: SolveError = parse_err.into();
    assert!(matches!(solve_err, SolveError::Parse(_)));
}

#[test]
fn test_solve_error_from_solver_error() {
    let solver_err = SolverError::InternalError("test".to_string());
    let solve_err: SolveError = solver_err.into();
    assert!(matches!(solve_err, SolveError::Solver(_)));
}

#[test]
fn test_solve_formula_sat() {
    assert!(solve_formula("x1").unwrap());
    assert!(solve_formula("(or x1 x2)").unwrap());
    assert!(solve_formula("(and x1 x2)").unwrap());
}

#[test]
fn test_solve_formula_unsat() {
    assert!(!solve_formula("(and x1 (not x1))").unwrap());
}

#[test]
fn solve_error_messages_are_exact() {
    let e = SolveError::Parse(ParseError::UnknownOperator("foo".to_string()));
    assert_eq!(e.to_string(), "Parse error: Unknown operator: 'foo'");
    let e2 = SolveError::Solver(SolverError::InternalError("boom".to_string()));
    assert_eq!(e2.to_string(), "Solver error: Internal solver error: boom");
    assert_eq!(e2.source().unwrap(), "Internal solver error: boom");
}

#[test]
fn nonpositive_variable_is_rejected() {
    assert!(matches!(solve_formula("x0"), Err(SolveError::Parse(ParseError::InvalidVariable(_)))));
    assert!(matches!(solve_formula("(and x1 x-3)"), Err(SolveError::Parse(ParseError::InvalidVariable(_)))));
}

#[test]
fn pigeonhole_three_into_two_is_unsat() {
    // p_ij: pigeon i in hole j; variables 1..6
    let f = "(and (and (and (or x1 x2) (or x3 x4)) (and (or x5 x6) (or (not x1) (not x3)))) (and (and (or (not x1) (not x5)) (or (not x3) (not x5))) (and (or (not x2) (not x4)) (and (or (not x2) (not x6)) (or (not x4) (not x6))))))";
    assert!(!solve_formula(f).unwrap());
}
