use cdcl_sat::nonogram_solver::{encode_col_patterns, encode_row_patterns, generate_valid_patterns};
use cdcl_sat::solver::CDCLSolver;

#[test]
fn test_generate_patterns_simple() {
    let patterns = generate_valid_patterns(5, &[2]);
    assert_eq!(patterns.len(), 4); // positions 0,1,2,3
    assert_eq!(patterns[0], vec![true, true, false, false, false]);
    assert_eq!(patterns[3], vec![false, false, false, true, true]);
}

#[test]
fn test_generate_patterns_two_runs() {
    let patterns = generate_valid_patterns(5, &[1, 1]);
    // 1.1.. 1..1. 1...1 .1.1. .1..1 ..1.1
    assert_eq!(patterns.len(), 6);
}

#[test]
fn test_generate_patterns_empty() {
    let patterns = generate_valid_patterns(5, &[0]);
    assert_eq!(patterns.len(), 1);
    assert_eq!(patterns[0], vec![false; 5]);
}

#[test]
fn test_generate_patterns_full() {
    let patterns = generate_valid_patterns(5, &[5]);
    assert_eq!(patterns.len(), 1);
    assert_eq!(patterns[0], vec![true; 5]);
}

#[test]
fn test_generate_patterns_impossible() {
    let patterns = generate_valid_patterns(5, &[3, 3]);
    assert_eq!(patterns.len(), 0);
}

#[test]
fn test_simple_nonogram() {
    // 3x3 with diagonal
    // Clues: rows [1], [1], [1], cols [1], [1], [1]
    let rows = 3;
    let cols = 3;
    let row_clues = [vec![1], vec![1], vec![1]];
    let col_clues = [vec![1], vec![1], vec![1]];

    let mut clauses = Vec::new();
    let mut next_aux = (rows * cols + 1) as i32;

    for (r, clues) in row_clues.iter().enumerate() {
        let patterns = generate_valid_patterns(cols, clues);
        clauses.extend(encode_row_patterns(r, cols, &patterns, &mut next_aux));
    }

    for (c, clues) in col_clues.iter().enumerate() {
        let patterns = generate_valid_patterns(rows, clues);
        clauses.extend(encode_col_patterns(c, rows, cols, &patterns, &mut next_aux));
    }

    let mut solver = CDCLSolver::new(clauses);
    assert!(solver.solve().unwrap());
}
