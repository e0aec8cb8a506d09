use cdcl_sat::magic_square::{find_valid_combinations, next_permutation, solve_magic_square};

#[test]
fn test_next_permutation_order() {
    let mut p = vec![1, 2, 3];
    let mut all = vec![p.clone()];
    while next_permutation(&mut p) {
        all.push(p.clone());
    }
    assert_eq!(all, vec![vec![1, 2, 3], vec![1, 3, 2], vec![2, 1, 3], vec![2, 3, 1], vec![3, 1, 2], vec![3, 2, 1]]);
    assert_eq!(p, vec![3, 2, 1]);
    let mut single = vec![7];
    assert!(!next_permutation(&mut single));
}

#[test]
fn test_valid_combinations() {
    let combos = find_valid_combinations(4, 2, 5);
    assert_eq!(combos, vec![vec![1, 4], vec![4, 1], vec![2, 3], vec![3, 2]]);
    assert!(find_valid_combinations(3, 2, 10).is_empty());
}

#[test]
fn test_magic_square_3() {
    let grid = solve_magic_square(3).unwrap().expect("3x3 magic square exists");
    let mut seen = vec![false; 10];
    for row in &grid {
        assert_eq!(row.iter().sum::<usize>(), 15);
        for &v in row {
            assert!((1..=9).contains(&v));
            assert!(!seen[v]);
            seen[v] = true;
        }
    }
    for c in 0..3 {
        assert_eq!((0..3).map(|r| grid[r][c]).sum::<usize>(), 15);
    }
    assert_eq!((0..3).map(|i| grid[i][i]).sum::<usize>(), 15);
    assert_eq!((0..3).map(|i| grid[i][2 - i]).sum::<usize>(), 15);
}

#[test]
fn test_magic_square_2_does_not_exist() {
    assert!(solve_magic_square(2).unwrap().is_none());
}

#[test]
fn test_magic_square_1() {
    assert_eq!(solve_magic_square(1).unwrap(), Some(vec![vec![1]]));
}
