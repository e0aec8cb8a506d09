use cdcl_sat::sudoku_generator::{check_unique, generate_complete_grid, remove_clues};

#[test]
fn remove_clues_keeps_a_unique_puzzle() {
    let grid = generate_complete_grid().unwrap();
    let mut order = Vec::new();
    for r in 0..9 {
        for c in 0..9 {
            order.push((r, c));
        }
    }
    let clues = remove_clues(&grid, &order, 40);
    assert!(clues.len() <= 81);
    assert!(clues.len() >= 17);
    for &(r, c, d) in &clues {
        assert_eq!(grid[r - 1][c - 1] as usize, d);
    }
    assert!(matches!(check_unique(&clues), Ok(true)));
}

#[test]
fn remove_clues_with_target_81_keeps_every_cell() {
    let grid = generate_complete_grid().unwrap();
    let mut order = Vec::new();
    for r in 0..9 {
        for c in 0..9 {
            order.push((8 - r, c));
        }
    }
    let clues = remove_clues(&grid, &order, 81);
    assert_eq!(clues.len(), 81);
    assert_eq!(clues[0], (9, 1, grid[8][0] as usize));
}
