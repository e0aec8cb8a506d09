use cdcl_sat::literal::{Clause, Literal};
use cdcl_sat::solver::CDCLSolver;

fn make_clause(lits: &[(i32, bool)]) -> Clause {
    Clause::new(
        lits.iter()
            .map(|&(v, neg)| if neg { Literal::negative(v) } else { Literal::positive(v) })
            .collect(),
    )
}

#[test]
fn solver_test_luby_sequence_values() {
    // The Luby sequence: 1, 1, 2, 1, 1, 2, 4, 1, 1, 2, 1, 1, 2, 4, 8, ...
    assert_eq!(CDCLSolver::luby(0), 1);
    assert_eq!(CDCLSolver::luby(1), 1);
    assert_eq!(CDCLSolver::luby(2), 2);
    assert_eq!(CDCLSolver::luby(3), 1);
    assert_eq!(CDCLSolver::luby(4), 1);
    assert_eq!(CDCLSolver::luby(5), 2);
    assert_eq!(CDCLSolver::luby(6), 4);
    assert_eq!(CDCLSolver::luby(7), 1);
    assert_eq!(CDCLSolver::luby(8), 1);
    assert_eq!(CDCLSolver::luby(9), 2);
    assert_eq!(CDCLSolver::luby(10), 1);
    assert_eq!(CDCLSolver::luby(11), 1);
    assert_eq!(CDCLSolver::luby(12), 2);
    assert_eq!(CDCLSolver::luby(13), 4);
    assert_eq!(CDCLSolver::luby(14), 8);
}

#[test]
fn solver_test_luby_powers_of_two() {
    // At indices 2^n - 2, the Luby value is 2^(n-1)
    assert_eq!(CDCLSolver::luby(0), 1);
    assert_eq!(CDCLSolver::luby(2), 2);
    assert_eq!(CDCLSolver::luby(6), 4);
    assert_eq!(CDCLSolver::luby(14), 8);
    assert_eq!(CDCLSolver::luby(30), 16);
}

#[test]
fn solver_test_phase_saving_initialization() {
    // All phases default to true (positive)
    let clauses = vec![make_clause(&[(1, false), (2, false)])];
    let solver = CDCLSolver::new(clauses);
    assert!(solver.saved_phase(1));
    assert!(solver.saved_phase(2));
}

#[test]
fn solver_test_phase_saving_updates() {
    // The phase is saved when a variable is assigned
    let clauses = vec![
        make_clause(&[(1, true)]), // forces x1 = false
        make_clause(&[(2, false), (3, false)]),
    ];
    let mut solver = CDCLSolver::new(clauses);
    solver.solve().unwrap();
    assert!(!solver.saved_phase(1));
}

#[test]
fn solver_test_restart_initialization() {
    let clauses = vec![make_clause(&[(1, false), (2, false)])];
    let solver = CDCLSolver::new(clauses);
    assert_eq!(solver.conflicts(), 0);
    assert_eq!(solver.luby_index(), 0);
    assert_eq!(solver.luby_unit(), 100);
    assert_eq!(solver.conflicts_until_restart(), 100);
}

#[test]
fn solver_test_restart_updates_schedule() {
    let clauses = vec![make_clause(&[(1, false), (2, false)])];
    let mut solver = CDCLSolver::new(clauses);
    let _initial_restart = solver.conflicts_until_restart();
    solver.restart();
    // Luby(1) = 1, so the next restart is 100 * 1 conflicts away
    assert_eq!(solver.luby_index(), 1);
    assert_eq!(solver.conflicts_until_restart(), 100);
    solver.restart();
    // Luby(2) = 2, so the next restart is 100 * 2 conflicts away
    assert_eq!(solver.luby_index(), 2);
    assert_eq!(solver.conflicts_until_restart(), 200);
}

#[test]
fn tests_test_luby_sequence_values() {
    // The Luby sequence: 1, 1, 2, 1, 1, 2, 4, 1, 1, 2, 1, 1, 2, 4, 8, ...
    assert_eq!(CDCLSolver::luby(0), 1);
    assert_eq!(CDCLSolver::luby(1), 1);
    assert_eq!(CDCLSolver::luby(2), 2);
    assert_eq!(CDCLSolver::luby(3), 1);
    assert_eq!(CDCLSolver::luby(4), 1);
    assert_eq!(CDCLSolver::luby(5), 2);
    assert_eq!(CDCLSolver::luby(6), 4);
    assert_eq!(CDCLSolver::luby(7), 1);
    assert_eq!(CDCLSolver::luby(8), 1);
    assert_eq!(CDCLSolver::luby(9), 2);
    assert_eq!(CDCLSolver::luby(10), 1);
    assert_eq!(CDCLSolver::luby(11), 1);
    assert_eq!(CDCLSolver::luby(12), 2);
    assert_eq!(CDCLSolver::luby(13), 4);
    assert_eq!(CDCLSolver::luby(14), 8);
}

#[test]
fn tests_test_luby_powers_of_two() {
    // At indices 2^n - 2, the Luby value is 2^(n-1)
    assert_eq!(CDCLSolver::luby(0), 1);
    assert_eq!(CDCLSolver::luby(2), 2);
    assert_eq!(CDCLSolver::luby(6), 4);
    assert_eq!(CDCLSolver::luby(14), 8);
    assert_eq!(CDCLSolver::luby(30), 16);
}

#[test]
fn tests_test_phase_saving_initialization() {
    // All phases default to true (positive)
    let clauses = vec![make_clause(&[(1, false), (2, false)])];
    let solver = CDCLSolver::new(clauses);
    assert!(solver.saved_phase(1));
    assert!(solver.saved_phase(2));
}

#[test]
fn tests_test_phase_saving_updates() {
    // The phase is saved when a variable is assigned
    let clauses = vec![
        make_clause(&[(1, true)]), // forces x1 = false
        make_clause(&[(2, false), (3, false)]),
    ];
    let mut solver = CDCLSolver::new(clauses);
    solver.solve().unwrap();
    assert!(!solver.saved_phase(1));
}

#[test]
fn tests_test_restart_initialization() {
    let clauses = vec![make_clause(&[(1, false), (2, false)])];
    let solver = CDCLSolver::new(clauses);
    assert_eq!(solver.conflicts(), 0);
    assert_eq!(solver.luby_index(), 0);
    assert_eq!(solver.luby_unit(), 100);
    assert_eq!(solver.conflicts_until_restart(), 100);
}

#[test]
fn tests_test_restart_updates_schedule() {
    let clauses = vec![make_clause(&[(1, false), (2, false)])];
    let mut solver = CDCLSolver::new(clauses);
    let _initial_restart = solver.conflicts_until_restart();
    solver.restart();
    // Luby(1) = 1, so the next restart is 100 * 1 conflicts away
    assert_eq!(solver.luby_index(), 1);
    assert_eq!(solver.conflicts_until_restart(), 100);
    solver.restart();
    // Luby(2) = 2, so the next restart is 100 * 2 conflicts away
    assert_eq!(solver.luby_index(), 2);
    assert_eq!(solver.conflicts_until_restart(), 200);
}

#[test]
fn luby_later_terms() {
    // 1 1 2 1 1 2 4 1 1 2 1 1 2 4 8 1 1 2 1 1 2 4 1 1 2 1 1 2 4 8 16
    let expected = [1u64, 1, 2, 1, 1, 2, 4, 1, 1, 2, 1, 1, 2, 4, 8, 1, 1, 2, 1, 1, 2, 4, 1, 1, 2, 1, 1, 2, 4, 8, 16];
    for (i, e) in expected.iter().enumerate() {
        assert_eq!(CDCLSolver::luby(i as u32), *e);
    }
    assert_eq!(CDCLSolver::luby(62), 32);
}

#[test]
fn restart_returns_to_root_and_keeps_conflicts() {
    let clauses = vec![make_clause(&[(1, false), (2, false)])];
    let mut solver = CDCLSolver::new(clauses);
    for _ in 0..6 {
        solver.restart();
    }
    // position 6 in the Luby sequence is 4
    assert_eq!(solver.luby_index(), 6);
    assert_eq!(solver.conflicts(), 0);
    assert_eq!(solver.conflicts_until_restart(), 400);
}
