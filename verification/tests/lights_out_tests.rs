use cdcl_sat::puzzle_input::parse_board;
use cdcl_sat::lights_out::{encode_xor_equals, generate_lights_out_clauses, solve_lights_out};
use cdcl_sat::CDCLSolver;

fn toggled(p: &[Vec<bool>], rows: usize, cols: usize, r: usize, c: usize) -> bool {
    let mut t = p[r][c];
    if r > 0 {
        t ^= p[r - 1][c];
    }
    if r + 1 < rows {
        t ^= p[r + 1][c];
    }
    if c > 0 {
        t ^= p[r][c - 1];
    }
    if c + 1 < cols {
        t ^= p[r][c + 1];
    }
    t
}

#[test]
fn test_single_light() {
    let initial = vec![vec![true]];
    let clauses = generate_lights_out_clauses(1, 1, &initial);
    let mut solver = CDCLSolver::new(clauses);
    assert!(solver.solve().unwrap());
    assert_eq!(solver.get_value(1), Some(true));
}

#[test]
fn test_all_off() {
    let initial = vec![vec![false, false], vec![false, false]];
    let clauses = generate_lights_out_clauses(2, 2, &initial);
    let mut solver = CDCLSolver::new(clauses);
    assert!(solver.solve().unwrap());
}

#[test]
fn test_2x2_center_pattern() {
    let initial = vec![vec![true, true], vec![true, true]];
    let clauses = generate_lights_out_clauses(2, 2, &initial);
    let mut solver = CDCLSolver::new(clauses);
    assert!(solver.solve().unwrap());
}

#[test]
fn test_xor_encoding() {
    let mut next_aux = 100;
    let clauses = encode_xor_equals(&[1, 2], true, &mut next_aux);
    let mut solver = CDCLSolver::new(clauses);
    assert!(solver.solve().unwrap());
    let v1 = solver.get_value(1) == Some(true);
    let v2 = solver.get_value(2) == Some(true);
    assert!(v1 ^ v2);
}

#[test]
fn test_xor_chain_uses_aux_variables() {
    let mut next_aux = 10;
    let clauses = encode_xor_equals(&[1, 2, 3, 4], false, &mut next_aux);
    assert_eq!(next_aux, 12);
    assert_eq!(clauses.len(), 2 * 4 + 2);
    let mut solver = CDCLSolver::new(clauses);
    assert!(solver.solve().unwrap());
    let ones = (1..=4).filter(|&v| solver.get_value(v) == Some(true)).count();
    assert_eq!(ones % 2, 0);
}

#[test]
fn test_xor_of_nothing() {
    let mut next_aux = 5;
    assert_eq!(encode_xor_equals(&[], false, &mut next_aux).len(), 0);
    let c = encode_xor_equals(&[], true, &mut next_aux);
    assert_eq!(c.len(), 1);
    assert_eq!(c[0].literals.len(), 0);
    assert_eq!(next_aux, 5);
}

#[test]
fn test_solve_3x3_presses_turn_all_off() {
    let initial = vec![
        vec![true, false, true],
        vec![false, true, false],
        vec![true, false, true],
    ];
    let presses = solve_lights_out(3, 3, &initial).unwrap().expect("solvable");
    assert_eq!(presses.len(), 3);
    for r in 0..3 {
        for c in 0..3 {
            assert_eq!(toggled(&presses, 3, 3, r, c), initial[r][c]);
        }
    }
}

#[test]
fn test_solve_single_light_presses_it() {
    let presses = solve_lights_out(1, 1, &vec![vec![true]]).unwrap().unwrap();
    assert_eq!(presses, vec![vec![true]]);
}

#[test]
fn test_unsolvable_board() {
    // On a 2x3 board pressing never toggles the two corners of one side alone.
    let initial = vec![vec![true, false, false], vec![false, false, false]];
    let mut found = false;
    for mask in 0u32..64 {
        let p: Vec<Vec<bool>> = (0..2).map(|r| (0..3).map(|c| mask & (1 << (r * 3 + c)) != 0).collect()).collect();
        if (0..2).all(|r| (0..3).all(|c| toggled(&p, 2, 3, r, c) == initial[r][c])) {
            found = true;
        }
    }
    let result = solve_lights_out(2, 3, &initial).unwrap();
    assert_eq!(result.is_some(), found);
}

#[test]
fn test_parse_board() {
    let lines: Vec<String> = vec!["2 3".to_string(), "1 0 1".to_string(), "010".to_string()];
    let (rows, cols, board) = parse_board(&lines).unwrap();
    assert_eq!((rows, cols), (2, 3));
    assert_eq!(board, vec![vec![true, false, true], vec![false, true, false]]);
}

#[test]
fn test_parse_board_errors() {
    assert_eq!(parse_board(&vec![]).unwrap_err(), "Missing first line");
    assert_eq!(parse_board(&vec!["2 x".to_string()]).unwrap_err(), "Invalid dimension");
    assert_eq!(parse_board(&vec!["2".to_string()]).unwrap_err(), "Expected 'rows cols' on first line");
    assert_eq!(parse_board(&vec!["2 2".to_string(), "11".to_string()]).unwrap_err(), "Missing board row");
    assert_eq!(
        parse_board(&vec!["1 2".to_string(), "101".to_string()]).unwrap_err(),
        "Expected 2 columns, got 3"
    );
}

#[test]
fn test_xor_chain_variables_in_scope() {
    let mut next_aux = 20;
    let vars = [3, 7, 1, 9, 4];
    let clauses = encode_xor_equals(&vars, true, &mut next_aux);
    assert_eq!(next_aux, 23);
    for c in &clauses {
        for l in &c.literals {
            assert!(vars.contains(&l.var) || (20..23).contains(&l.var));
        }
    }
}
