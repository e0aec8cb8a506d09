use cdcl_sat::nqueens_solver::{count_solutions, generate_nqueens_clauses, var};
use cdcl_sat::solver::CDCLSolver;

#[test]
fn nqueens_solver_test_var_encoding() {
    assert_eq!(var(8, 1, 1), 1);
    assert_eq!(var(8, 1, 8), 8);
    assert_eq!(var(8, 2, 1), 9);
    assert_eq!(var(8, 8, 8), 64);
}

#[test]
fn test_4_queens_solvable() {
    let clauses = generate_nqueens_clauses(4);
    let mut solver = CDCLSolver::new(clauses);
    assert!(solver.solve().unwrap());
}

#[test]
fn test_3_queens_unsolvable() {
    let clauses = generate_nqueens_clauses(3);
    let mut solver = CDCLSolver::new(clauses);
    assert!(!solver.solve().unwrap());
}

#[test]
fn test_2_queens_unsolvable() {
    let clauses = generate_nqueens_clauses(2);
    let mut solver = CDCLSolver::new(clauses);
    assert!(!solver.solve().unwrap());
}

#[test]
fn test_1_queen_solvable() {
    let clauses = generate_nqueens_clauses(1);
    let mut solver = CDCLSolver::new(clauses);
    assert!(solver.solve().unwrap());
}

#[test]
fn test_8_queens_solvable() {
    let clauses = generate_nqueens_clauses(8);
    let mut solver = CDCLSolver::new(clauses);
    assert!(solver.solve().unwrap());
}

#[test]
fn test_count_4_queens() {
    assert_eq!(count_solutions(4), 2);
}

#[test]
fn test_count_5_queens() {
    assert_eq!(count_solutions(5), 10);
}
