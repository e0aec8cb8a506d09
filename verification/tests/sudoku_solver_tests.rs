use cdcl_sat::sudoku_solver::{decode_var, generate_sudoku_clauses, parse_puzzle, var};

#[test]
fn sudoku_solver_test_var_encoding() {
    assert_eq!(var(1, 1, 1), 1i32);
    assert_eq!(var(1, 1, 9), 9i32);
    assert_eq!(var(1, 2, 1), 10i32);
    assert_eq!(var(2, 1, 1), 82i32);
    assert_eq!(var(9, 9, 9), 729i32);
}

#[test]
fn sudoku_solver_test_var_decode_roundtrip() {
    for r in 1..=9 {
        for c in 1..=9 {
            for d in 1..=9 {
                let v = var(r, c, d);
                let (r2, c2, d2) = decode_var(v);
                assert_eq!((r, c, d), (r2, c2, d2));
            }
        }
    }
}

#[test]
fn test_parse_puzzle() {
    let puzzle = "530070000600195000098000060800060003400803001700020006060000280000419005000080079";
    let clues = parse_puzzle(puzzle).unwrap();
    assert!(clues.contains(&(1, 1, 5)));
    assert!(clues.contains(&(1, 2, 3)));
    assert!(!clues.iter().any(|&(r, c, _)| r == 1 && c == 4)); // 0 = empty
}

#[test]
fn test_parse_puzzle_with_dots() {
    let puzzle = "53..7....6..195....98....6.8...6...34..8.3..17...2...6.6....28....419..5....8..79";
    let clues = parse_puzzle(puzzle).unwrap();
    assert!(clues.contains(&(1, 1, 5)));
}

#[test]
fn test_clause_count() {
    let clauses = generate_sudoku_clauses(&[]);
    // Cell constraints: 81 (at least one) + 81*36 (at most one) = 81 + 2916 = 2997
    // Row constraints: 81 (at least one) + 81*36 (at most one) = 2997
    // Col constraints: 81 (at least one) + 81*36 (at most one) = 2997
    // Box constraints: 81 (at least one) + 81*36 (at most one) = 2997
    // Total: 4 * 2997 = 11988 clauses for empty puzzle
    assert!(clauses.len() > 10000);
}
