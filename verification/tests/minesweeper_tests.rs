use cdcl_sat::minesweeper::{analyze_minesweeper, combinations, encode_exactly_k, generate_minesweeper_clauses, var, Cell, Deduction};
use cdcl_sat::puzzle_input::parse_minefield;
use cdcl_sat::{CDCLSolver, Clause, Literal};

#[test]
fn test_encode_exactly_1_of_3() {
    let vars = vec![1, 2, 3];
    let clauses = encode_exactly_k(&vars, 1);
    let mut test_clauses = clauses.clone();
    test_clauses.push(Clause::new(vec![Literal::positive(1)]));
    test_clauses.push(Clause::new(vec![Literal::negative(2)]));
    test_clauses.push(Clause::new(vec![Literal::negative(3)]));
    let mut solver = CDCLSolver::new(test_clauses);
    assert!(solver.solve().unwrap());
}

#[test]
fn test_simple_minesweeper() {
    let board = vec![vec![Cell::Number(1), Cell::Unknown], vec![Cell::Unknown, Cell::Unknown]];
    let clauses = generate_minesweeper_clauses(2, 2, &board);
    let mut solver = CDCLSolver::new(clauses);
    assert!(solver.solve().unwrap());
}

#[test]
fn test_corner_with_1() {
    let board = vec![vec![Cell::Number(1), Cell::Unknown]];
    let clauses = generate_minesweeper_clauses(1, 2, &board);
    let cell_var = var(2, 0, 1);
    let mut clauses_safe = clauses.clone();
    clauses_safe.push(Clause::new(vec![Literal::negative(cell_var)]));
    assert!(!CDCLSolver::new(clauses_safe).solve().unwrap());
}

#[test]
fn test_exactly_two_of_three_forbids_three() {
    let clauses = encode_exactly_k(&[1, 2, 3], 2);
    let mut all = clauses.clone();
    for v in 1..=3 {
        all.push(Clause::new(vec![Literal::positive(v)]));
    }
    assert!(!CDCLSolver::new(all).solve().unwrap());
    let mut two = clauses;
    two.push(Clause::new(vec![Literal::positive(1)]));
    two.push(Clause::new(vec![Literal::positive(2)]));
    let mut solver = CDCLSolver::new(two);
    assert!(solver.solve().unwrap());
    assert_eq!(solver.get_value(3), Some(false));
}

#[test]
fn test_exactly_k_too_many() {
    let clauses = encode_exactly_k(&[1, 2], 3);
    assert_eq!(clauses.len(), 1);
    assert!(clauses[0].literals.is_empty());
}

#[test]
fn test_combinations_order() {
    assert_eq!(combinations(4, 2), vec![vec![0, 1], vec![0, 2], vec![0, 3], vec![1, 2], vec![1, 3], vec![2, 3]]);
    assert_eq!(combinations(2, 3), Vec::<Vec<usize>>::new());
    assert_eq!(combinations(3, 0), vec![Vec::<usize>::new()]);
}

#[test]
fn test_analyze_corner() {
    let board = vec![vec![Cell::Number(1), Cell::Unknown]];
    let d = analyze_minesweeper(1, 2, &board);
    assert_eq!(d, vec![vec![Deduction::Revealed, Deduction::MustBeMine]]);
}

#[test]
fn test_analyze_safe_and_undetermined() {
    // 0 ?      the 0 makes both unknown neighbours safe
    // ? ?      and the far corner is undetermined
    let board = vec![vec![Cell::Number(0), Cell::Unknown, Cell::Unknown], vec![Cell::Unknown, Cell::Unknown, Cell::Unknown]];
    let d = analyze_minesweeper(2, 3, &board);
    assert_eq!(d[0][1], Deduction::MustBeSafe);
    assert_eq!(d[1][0], Deduction::MustBeSafe);
    assert_eq!(d[1][1], Deduction::MustBeSafe);
    assert_eq!(d[0][2], Deduction::Undetermined);
}

#[test]
fn test_parse_minefield() {
    let lines: Vec<String> = ["2 3", "1?*", "X.9"].iter().map(|s| s.to_string()).collect();
    let (rows, cols, b) = parse_minefield(&lines).unwrap();
    assert_eq!((rows, cols), (2, 3));
    assert_eq!(
        b,
        vec![vec![Cell::Number(1), Cell::Unknown, Cell::Mine], vec![Cell::Mine, Cell::Unknown, Cell::Unknown]]
    );
}
