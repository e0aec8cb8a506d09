use cdcl_sat::literal::{Clause, Literal};
use cdcl_sat::solver::CDCLSolver;

fn make_clause(lits: &[(i32, bool)]) -> Clause {
    Clause::new(
        lits.iter()
            .map(|&(v, neg)| if neg { Literal::negative(v) } else { Literal::positive(v) })
            .collect(),
    )
}

#[test]
fn empty_clause_makes_formula_unsat() {
    let mut solver = CDCLSolver::new(vec![Clause::new(vec![])]);
    assert_eq!(solver.solve(), Ok(false));
}

#[test]
fn empty_clause_among_others_makes_formula_unsat() {
    let clauses = vec![make_clause(&[(1, false), (2, false)]), Clause::new(vec![]), make_clause(&[(2, true)])];
    let mut solver = CDCLSolver::new(clauses);
    assert_eq!(solver.solve(), Ok(false));
}

#[test]
fn drat_disabled_by_default() {
    let clauses = vec![make_clause(&[(1, false)]), make_clause(&[(1, true)])];
    let mut solver = CDCLSolver::new(clauses);
    let _ = solver.solve();
    assert_eq!(solver.drat_output(), "");
}

#[test]
fn drat_logs_learned_clauses() {
    // pigeonhole: 3 pigeons, 2 holes (unsatisfiable, needs conflicts)
    let v = |p: i32, h: i32| p * 2 + h + 1;
    let mut clauses = Vec::new();
    for p in 0..3 {
        clauses.push(make_clause(&[(v(p, 0), false), (v(p, 1), false)]));
    }
    for h in 0..2 {
        for p in 0..3 {
            for q in (p + 1)..3 {
                clauses.push(make_clause(&[(v(p, h), true), (v(q, h), true)]));
            }
        }
    }
    let mut solver = CDCLSolver::new(clauses);
    solver.enable_drat();
    assert_eq!(solver.solve(), Ok(false));
    let proof = solver.drat_output();
    assert!(!proof.is_empty());
    for line in proof.lines() {
        assert!(line.ends_with(" 0") || line == "0");
    }
}
