use cdcl_sat::sudoku_generator::{decode_var, generate_complete_grid, has_unique_solution, var};

#[test]
fn sudoku_generator_test_var_decode_roundtrip() {
    for r in 1..=9 {
        for c in 1..=9 {
            for d in 1..=9 {
                let v = var(r, c, d);
                let (r2, c2, d2) = decode_var(v);
                assert_eq!((r, c, d), (r2, c2, d2));
            }
        }
    }
}

#[test]
fn test_generate_complete_grid() {
    let grid = generate_complete_grid().unwrap();

    // Check all cells are filled
    for r in 0..9 {
        for c in 0..9 {
            assert!(grid[r][c] >= 1 && grid[r][c] <= 9);
        }
    }

    // Check rows
    for r in 0..9 {
        let mut seen = [false; 10];
        for c in 0..9 {
            let d = grid[r][c] as usize;
            assert!(!seen[d], "Duplicate in row");
            seen[d] = true;
        }
    }

    // Check columns
    for c in 0..9 {
        let mut seen = [false; 10];
        for r in 0..9 {
            let d = grid[r][c] as usize;
            assert!(!seen[d], "Duplicate in column");
            seen[d] = true;
        }
    }
}

#[test]
fn test_unique_solution_check() {
    // A puzzle with many clues should have unique solution
    let solved = generate_complete_grid().unwrap();
    let grid = &solved;
    let clues: Vec<_> = (0..9)
        .flat_map(|r| (0..9).map(move |c| (r + 1, c + 1, grid[r][c] as usize)))
        .collect();

    assert!(has_unique_solution(&clues));
}
