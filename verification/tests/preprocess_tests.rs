use cdcl_sat::preprocess::preprocess;

#[test]
fn preprocess_test_unit_propagation() {
    let clauses = vec![
        vec![1],           // x1
        vec![-1, 2],       // !x1 | x2
        vec![-2, 3],       // !x2 | x3
    ];
    let result = preprocess(clauses, 3);
    // All clauses should be resolved by unit prop
    assert!(result.is_empty());
}

#[test]
fn test_pure_literal() {
    let clauses = vec![
        vec![1, 2],    // x1 | x2
        vec![1, 3],    // x1 | x3
    ];
    let result = preprocess(clauses, 3);
    // x1 is pure positive, all clauses satisfied
    assert!(result.is_empty());
}

#[test]
fn test_bve_simple() {
    // BVE on x1: (x1|x2) resolved with (!x1|x3) → (x2|x3)
    // Then BVE on x2: (x2|x3) resolved with (!x2|!x3) → (x3|!x3) = tautology
    // All clauses eliminated — correct for this satisfiable formula.
    let clauses = vec![
        vec![1, 2],     // x1 | x2
        vec![-1, 3],    // !x1 | x3
        vec![-2, -3],   // !x2 | !x3
    ];
    let result = preprocess(clauses, 3);
    assert!(result.is_empty()); // fully simplified away
}

#[test]
fn test_bve_tautology() {
    // x appears in: (x | a) and (!x | !a)
    // Resolvent: (a | !a) - tautology, eliminated
    let clauses = vec![
        vec![1, 2],    // x1 | x2
        vec![-1, -2],  // !x1 | !x2
    ];
    let result = preprocess(clauses, 2);
    // Tautological resolvent means no clauses remain
    assert!(result.is_empty());
}

#[test]
fn test_unsat_detection() {
    let clauses = vec![
        vec![1],
        vec![-1],
    ];
    let result = preprocess(clauses, 1);
    // Should detect UNSAT (returns a trivially UNSAT formula)
    assert!(result.len() >= 2); // contains contradictory units
}

#[test]
fn test_preserves_satisfiability() {
    // A satisfiable formula should remain satisfiable after preprocessing
    let clauses = vec![
        vec![1, 2],
        vec![-1, 2],
        vec![1, -2],
    ];
    let result = preprocess(clauses, 2);
    // Should be satisfiable (x1=T, x2=T works)
    // The exact result depends on preprocessing, but shouldn't be empty contradictory
    // Just check it doesn't produce UNSAT
    let has_contradiction = result.iter().any(std::vec::Vec::is_empty);
    assert!(!has_contradiction);
}
