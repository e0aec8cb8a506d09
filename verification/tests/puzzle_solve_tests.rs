use cdcl_sat::nonogram_solver::{generate_valid_patterns, solve_nonogram, NonogramError};
use cdcl_sat::nqueens_solver::solve_nqueens;
use cdcl_sat::sudoku_solver::{parse_puzzle, solve_sudoku};

fn runs(line: &[bool]) -> Vec<usize> {
    let mut out = Vec::new();
    let mut n = 0;
    for &c in line {
        if c {
            n += 1;
        } else if n > 0 {
            out.push(n);
            n = 0;
        }
    }
    if n > 0 {
        out.push(n);
    }
    out
}

fn queens_valid(board: &[Vec<bool>]) -> bool {
    let n = board.len();
    let mut pos = Vec::new();
    for (r, row) in board.iter().enumerate() {
        if row.len() != n || row.iter().filter(|&&q| q).count() != 1 {
            return false;
        }
        pos.push((r as i64, row.iter().position(|&q| q).unwrap() as i64));
    }
    for i in 0..n {
        for j in i + 1..n {
            let (r1, c1) = pos[i];
            let (r2, c2) = pos[j];
            if c1 == c2 || (r1 - r2).abs() == (c1 - c2).abs() {
                return false;
            }
        }
    }
    true
}

#[test]
fn nqueens_board_is_a_placement() {
    for n in [1usize, 4, 5, 8] {
        let board = solve_nqueens(n).unwrap().unwrap();
        assert_eq!(board.len(), n);
        assert!(queens_valid(&board));
    }
}

#[test]
fn nqueens_no_placement_for_two_and_three() {
    assert_eq!(solve_nqueens(2).unwrap(), None);
    assert_eq!(solve_nqueens(3).unwrap(), None);
}

#[test]
fn sudoku_solution_keeps_clues_and_rules() {
    let puzzle = "530070000600195000098000060800060003400803001700020006060000280000419005000080079";
    let clues = parse_puzzle(puzzle).unwrap();
    let grid = solve_sudoku(&clues).unwrap().unwrap();
    for &(r, c, d) in &clues {
        assert_eq!(grid[r - 1][c - 1] as usize, d);
    }
    for i in 0..9 {
        let mut row: Vec<u8> = grid[i].clone();
        row.sort();
        assert_eq!(row, (1..=9).collect::<Vec<u8>>());
        let mut col: Vec<u8> = (0..9).map(|r| grid[r][i]).collect();
        col.sort();
        assert_eq!(col, (1..=9).collect::<Vec<u8>>());
    }
    assert_eq!(grid[0], vec![5, 3, 4, 6, 7, 8, 9, 1, 2]);
}

#[test]
fn sudoku_conflicting_clues_unsolvable() {
    let clues = vec![(1, 1, 5), (1, 2, 5)];
    assert_eq!(solve_sudoku(&clues).unwrap(), None);
}

#[test]
fn patterns_have_the_clue_runs() {
    for p in generate_valid_patterns(7, &[2, 1, 1]) {
        assert_eq!(runs(&p), vec![2, 1, 1]);
    }
    assert_eq!(generate_valid_patterns(7, &[2, 1, 1]).len(), 4);
    assert!(generate_valid_patterns(4, &[2, 2]).is_empty());
}

#[test]
fn nonogram_solution_matches_clues() {
    let row_clues = vec![vec![1], vec![3], vec![1]];
    let col_clues = vec![vec![1], vec![3], vec![1]];
    let grid = solve_nonogram(3, 3, &row_clues, &col_clues).unwrap().unwrap();
    assert_eq!(grid, vec![vec![false, true, false], vec![true, true, true], vec![false, true, false]]);
}

#[test]
fn nonogram_line_without_patterns() {
    let row_clues = vec![vec![2, 2], vec![0]];
    let col_clues = vec![vec![1], vec![1], vec![1]];
    assert_eq!(
        solve_nonogram(2, 3, &row_clues, &col_clues),
        Err(NonogramError::NoPatterns { is_row: true, index: 0 })
    );
}

#[test]
fn nonogram_unsolvable() {
    let row_clues = vec![vec![1], vec![0]];
    let col_clues = vec![vec![0], vec![0]];
    assert_eq!(solve_nonogram(2, 2, &row_clues, &col_clues).unwrap(), None);
}
