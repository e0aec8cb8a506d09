use cdcl_sat::dimacs_sat::{parse_dimacs, Config};
use cdcl_sat::literal::{Clause, Literal};
use cdcl_sat::solver::CDCLSolver;

fn make_clause(lits: &[i32]) -> Clause {
    Clause::new(lits.iter().map(|&l| {
        if l > 0 {
            Literal::positive(l)
        } else {
            Literal::negative(-l)
        }
    }).collect())
}

#[test]
fn dimacs_sat_test_simple_sat() {
    // (x1 OR x2) AND (NOT x1 OR x2)
    let clauses = vec![
        make_clause(&[1, 2]),
        make_clause(&[-1, 2]),
    ];
    let mut solver = CDCLSolver::new(clauses);
    assert!(solver.solve().unwrap());
    // x2 must be true
    assert_eq!(solver.get_value(2), Some(true));
}

#[test]
fn test_simple_unsat() {
    // (x1) AND (NOT x1)
    let clauses = vec![
        make_clause(&[1]),
        make_clause(&[-1]),
    ];
    let mut solver = CDCLSolver::new(clauses);
    assert!(!solver.solve().unwrap());
}

#[test]
fn test_3sat_instance() {
    // A satisfiable 3-SAT instance
    // (x1 OR x2 OR x3) AND (NOT x1 OR x2 OR x3) AND (x1 OR NOT x2 OR x3)
    let clauses = vec![
        make_clause(&[1, 2, 3]),
        make_clause(&[-1, 2, 3]),
        make_clause(&[1, -2, 3]),
    ];
    let mut solver = CDCLSolver::new(clauses);
    assert!(solver.solve().unwrap());
}

#[test]
fn test_contradictory_unit_clauses() {
    // Two contradictory unit clauses are unsatisfiable
    let clauses = vec![
        make_clause(&[1]),
        make_clause(&[-1]),
    ];
    let mut solver = CDCLSolver::new(clauses);
    assert!(!solver.solve().unwrap());
}

#[test]
fn dimacs_sat_test_unit_propagation() {
    // (x1) AND (NOT x1 OR x2) AND (NOT x2 OR x3)
    // Unit propagation: x1=T -> x2=T -> x3=T
    let clauses = vec![
        make_clause(&[1]),
        make_clause(&[-1, 2]),
        make_clause(&[-2, 3]),
    ];
    let mut solver = CDCLSolver::new(clauses);
    assert!(solver.solve().unwrap());
    assert_eq!(solver.get_value(1), Some(true));
    assert_eq!(solver.get_value(2), Some(true));
    assert_eq!(solver.get_value(3), Some(true));
}

#[test]
fn test_parse_dimacs_from_string() {
    let input = "c test\np cnf 3 2\n1 -2 3 0\n-1 2 0\n";
    let lines: Vec<String> = input.lines().map(|l| l.to_string()).collect();
    let (num_vars, clauses, _) = parse_dimacs(&lines).unwrap();
    assert_eq!(num_vars, 3);
    assert_eq!(clauses.len(), 2);
}

#[test]
fn test_parse_args_help_style() {
    // Just verify the Config struct works correctly
    let config = Config {
        file: Some("test.cnf".to_string()),
        stats: true,
        no_preprocess: false,
        timeout_secs: Some(60),
    };
    assert!(config.stats);
    assert_eq!(config.timeout_secs, Some(60));
    assert_eq!(config.file, Some("test.cnf".to_string()));
}
