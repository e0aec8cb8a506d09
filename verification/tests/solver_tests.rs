use cdcl_sat::literal::{Clause, Literal};
use cdcl_sat::solver::{CDCLSolver, SolverError};

fn make_clause(lits: &[(i32, bool)]) -> Clause {
    Clause::new(
        lits.iter()
            .map(|&(v, neg)| if neg { Literal::negative(v) } else { Literal::positive(v) })
            .collect(),
    )
}

fn check_model(clauses: &[Clause], model: &[bool]) -> bool {
    clauses.iter().all(|c| {
        c.literals.iter().any(|l| model[l.var as usize] != l.negated)
    })
}

#[test]
fn solver_test_solver_error_display() {
    let err = SolverError::InvalidConflictAnalysis { variable: 5, message: "test error".to_string() };
    let msg = err.to_string();
    assert!(msg.contains("variable 5"));
    assert!(msg.contains("test error"));

    let err2 = SolverError::InternalError("internal test".to_string());
    let msg2 = err2.to_string();
    assert!(msg2.contains("internal test"));
}

#[test]
fn tests_test_solver_error_display() {
    let err = SolverError::InvalidConflictAnalysis { variable: 5, message: "test error".to_string() };
    let msg = err.to_string();
    assert!(msg.contains("variable 5"));
    assert!(msg.contains("test error"));

    let err2 = SolverError::InternalError("internal test".to_string());
    let msg2 = err2.to_string();
    assert!(msg2.contains("internal test"));
}

#[test]
fn solver_error_messages_are_exact() {
    let err = SolverError::InvalidConflictAnalysis { variable: 5, message: "test error".to_string() };
    assert_eq!(err.to_string(), "Invalid conflict analysis at variable 5: test error");
    assert_eq!(
        SolverError::InternalError("x".to_string()).to_string(),
        "Internal solver error: x"
    );
}

#[test]
fn unit_clauses_and_model() {
    let clauses = vec![
        make_clause(&[(1, false)]),
        make_clause(&[(1, true), (2, false)]),
    ];
    let mut solver = CDCLSolver::new(clauses.clone());
    assert!(solver.solve().unwrap());
    assert_eq!(solver.get_value(1), Some(true));
    assert_eq!(solver.get_value(2), Some(true));
    assert_eq!(solver.get_value(7), None);
    let model = solver.get_model();
    assert_eq!(model.len(), 3);
    assert!(check_model(&clauses, &model));
}

#[test]
fn contradicting_units_are_unsat() {
    let clauses = vec![make_clause(&[(1, false)]), make_clause(&[(1, true)])];
    let mut solver = CDCLSolver::new(clauses);
    assert!(!solver.solve().unwrap());
}

#[test]
fn all_four_two_literal_clauses_are_unsat() {
    let clauses = vec![
        make_clause(&[(1, false), (2, false)]),
        make_clause(&[(1, false), (2, true)]),
        make_clause(&[(1, true), (2, false)]),
        make_clause(&[(1, true), (2, true)]),
    ];
    let mut solver = CDCLSolver::new(clauses);
    assert!(!solver.solve().unwrap());
}

#[test]
fn empty_formula_is_sat() {
    let mut solver = CDCLSolver::new(Vec::new());
    assert!(solver.solve().unwrap());
    assert_eq!(solver.get_model(), vec![false]);
}

fn pigeonhole(pigeons: i32, holes: i32) -> Vec<Clause> {
    let var = |p: i32, h: i32| p * holes + h + 1;
    let mut clauses = Vec::new();
    for p in 0..pigeons {
        clauses.push(make_clause(&(0..holes).map(|h| (var(p, h), false)).collect::<Vec<_>>()));
    }
    for h in 0..holes {
        for p1 in 0..pigeons {
            for p2 in (p1 + 1)..pigeons {
                clauses.push(make_clause(&[(var(p1, h), true), (var(p2, h), true)]));
            }
        }
    }
    clauses
}

#[test]
fn pigeonhole_unsat() {
    let mut solver = CDCLSolver::new(pigeonhole(6, 5));
    assert!(!solver.solve().unwrap());
}

#[test]
fn pigeonhole_sat_when_enough_holes() {
    let clauses = pigeonhole(5, 5);
    let mut solver = CDCLSolver::new(clauses.clone());
    assert!(solver.solve().unwrap());
    assert!(check_model(&clauses, &solver.get_model()));
}

#[test]
fn random_3sat_models_check() {
    let mut state: u32 = 12345;
    let mut next = || {
        state ^= state << 13;
        state ^= state >> 17;
        state ^= state << 5;
        state
    };
    for _round in 0..20 {
        let n = 40;
        let m = 150;
        let mut clauses = Vec::new();
        for _ in 0..m {
            let mut lits = Vec::new();
            for _ in 0..3 {
                let v = (next() % n) as i32 + 1;
                let neg = next() % 2 == 0;
                lits.push((v, neg));
            }
            clauses.push(make_clause(&lits));
        }
        let mut solver = CDCLSolver::new(clauses.clone());
        if solver.solve().unwrap() {
            assert!(check_model(&clauses, &solver.get_model()));
        }
    }
}

#[test]
fn solve_twice_gives_same_answer() {
    let clauses = pigeonhole(4, 4);
    let mut solver = CDCLSolver::new(clauses.clone());
    assert!(solver.solve().unwrap());
    assert!(solver.solve().unwrap());
    assert!(check_model(&clauses, &solver.get_model()));
}
