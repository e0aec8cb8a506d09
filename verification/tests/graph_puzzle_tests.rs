use cdcl_sat::exact_cover::{generate_exact_cover_clauses, solve_exact_cover};
use cdcl_sat::graph_coloring::{color_graph, generate_coloring_clauses};
use cdcl_sat::hamiltonian::{find_hamiltonian, generate_hamiltonian_clauses};
use cdcl_sat::CDCLSolver;

fn var(subset_idx: usize) -> i32 {
    (subset_idx + 1) as i32
}

fn adjacent(edges: &[(usize, usize)], u: usize, v: usize) -> bool {
    edges.iter().any(|&(a, b)| (a == u && b == v) || (a == v && b == u))
}

fn check_path(path: &[usize], n: usize, edges: &[(usize, usize)], cycle: bool) {
    assert_eq!(path.len(), n);
    let mut seen = vec![false; n + 1];
    for &v in path {
        assert!(1 <= v && v <= n);
        assert!(!seen[v]);
        seen[v] = true;
    }
    for w in path.windows(2) {
        assert!(adjacent(edges, w[0], w[1]));
    }
    if cycle && n >= 2 {
        assert!(adjacent(edges, path[n - 1], path[0]));
    }
}

#[test]
fn test_triangle_cycle() {
    let edges = vec![(1, 2), (2, 3), (1, 3)];
    let clauses = generate_hamiltonian_clauses(3, &edges, true);
    let mut solver = CDCLSolver::new(clauses);
    assert!(solver.solve().unwrap());
}

#[test]
fn test_path_graph() {
    let edges = vec![(1, 2), (2, 3), (3, 4)];
    let clauses = generate_hamiltonian_clauses(4, &edges, false);
    let mut solver = CDCLSolver::new(clauses);
    assert!(solver.solve().unwrap());
    let clauses = generate_hamiltonian_clauses(4, &edges, true);
    let mut solver = CDCLSolver::new(clauses);
    assert!(!solver.solve().unwrap());
}

#[test]
fn test_disconnected() {
    let edges = vec![(1, 2), (3, 4)];
    let clauses = generate_hamiltonian_clauses(4, &edges, false);
    let mut solver = CDCLSolver::new(clauses);
    assert!(!solver.solve().unwrap());
}

#[test]
fn test_complete_k4() {
    let edges = vec![(1, 2), (1, 3), (1, 4), (2, 3), (2, 4), (3, 4)];
    let clauses = generate_hamiltonian_clauses(4, &edges, true);
    let mut solver = CDCLSolver::new(clauses);
    assert!(solver.solve().unwrap());
}

#[test]
fn test_find_hamiltonian_path_and_cycle() {
    let edges = vec![(1, 2), (2, 3), (3, 4)];
    let path = find_hamiltonian(4, &edges, false).unwrap().expect("path exists");
    check_path(&path, 4, &edges, false);
    assert!(find_hamiltonian(4, &edges, true).unwrap().is_none());
    let square = vec![(1, 2), (2, 3), (3, 4), (4, 1)];
    let cycle = find_hamiltonian(4, &square, true).unwrap().expect("cycle exists");
    check_path(&cycle, 4, &square, true);
}

#[test]
fn test_triangle_3_colors() {
    let edges = vec![(1, 2), (2, 3), (1, 3)];
    let clauses = generate_coloring_clauses(3, 3, &edges);
    let mut solver = CDCLSolver::new(clauses);
    assert!(solver.solve().unwrap());
}

#[test]
fn test_triangle_2_colors() {
    let edges = vec![(1, 2), (2, 3), (1, 3)];
    let clauses = generate_coloring_clauses(3, 2, &edges);
    let mut solver = CDCLSolver::new(clauses);
    assert!(!solver.solve().unwrap());
}

#[test]
fn test_bipartite_2_colors() {
    let edges = vec![(1, 3), (1, 4), (2, 3), (2, 4)];
    let clauses = generate_coloring_clauses(4, 2, &edges);
    let mut solver = CDCLSolver::new(clauses);
    assert!(solver.solve().unwrap());
}

#[test]
fn test_k4_needs_4_colors() {
    let edges = vec![(1, 2), (1, 3), (1, 4), (2, 3), (2, 4), (3, 4)];
    let clauses = generate_coloring_clauses(4, 3, &edges);
    let mut solver = CDCLSolver::new(clauses);
    assert!(!solver.solve().unwrap());
    let clauses = generate_coloring_clauses(4, 4, &edges);
    let mut solver = CDCLSolver::new(clauses);
    assert!(solver.solve().unwrap());
}

#[test]
fn test_color_graph_gives_proper_coloring() {
    let edges = vec![(1, 2), (2, 3), (3, 4), (4, 5), (5, 1)];
    let col = color_graph(5, 3, &edges).unwrap().expect("odd cycle is 3-colourable");
    assert_eq!(col.len(), 5);
    for &c in &col {
        assert!(1 <= c && c <= 3);
    }
    for &(a, b) in &edges {
        assert_ne!(col[a - 1], col[b - 1]);
    }
    assert!(color_graph(5, 2, &edges).unwrap().is_none());
    assert!(color_graph(2, 0, &vec![]).unwrap().is_none());
    assert_eq!(color_graph(0, 0, &vec![]).unwrap(), Some(vec![]));
}

#[test]
fn test_simple_exact_cover() {
    let subsets = vec![vec![1, 2], vec![3, 4]];
    let clauses = generate_exact_cover_clauses(4, &subsets);
    let mut solver = CDCLSolver::new(clauses);
    assert!(solver.solve().unwrap());
    assert_eq!(solver.get_value(var(0)), Some(true));
    assert_eq!(solver.get_value(var(1)), Some(true));
}

#[test]
fn test_overlapping_no_solution() {
    let subsets = vec![vec![1, 2], vec![2, 3]];
    let clauses = generate_exact_cover_clauses(3, &subsets);
    let mut solver = CDCLSolver::new(clauses);
    assert!(!solver.solve().unwrap());
}

#[test]
fn test_multiple_options() {
    let subsets = vec![vec![1, 2], vec![1], vec![2]];
    let clauses = generate_exact_cover_clauses(2, &subsets);
    let mut solver = CDCLSolver::new(clauses);
    assert!(solver.solve().unwrap());
}

#[test]
fn test_no_valid_cover() {
    let subsets = vec![vec![1, 2], vec![1, 3]];
    let clauses = generate_exact_cover_clauses(3, &subsets);
    let mut solver = CDCLSolver::new(clauses);
    assert!(!solver.solve().unwrap());
}

#[test]
fn test_pentomino_style() {
    let subsets = vec![
        vec![1, 4, 7],
        vec![1, 4],
        vec![4, 5, 7],
        vec![3, 5, 6],
        vec![2, 3, 6, 7],
        vec![2, 7],
    ];
    let clauses = generate_exact_cover_clauses(7, &subsets);
    let mut solver = CDCLSolver::new(clauses);
    let result = solver.solve().unwrap();
    println!("Pentomino-style has solution: {result}");
}

#[test]
fn test_solve_exact_cover_selection() {
    let subsets = vec![vec![1, 2], vec![1], vec![2], vec![3]];
    let sel = solve_exact_cover(3, &subsets).unwrap().expect("cover exists");
    assert_eq!(sel.len(), 4);
    for e in 1..=3usize {
        let count: usize = subsets
            .iter()
            .zip(sel.iter())
            .filter(|(_, &s)| s)
            .map(|(sub, _)| sub.iter().filter(|&&x| x == e).count())
            .sum();
        assert_eq!(count, 1);
    }
    // An element no subset lists cannot be covered.
    assert!(solve_exact_cover(4, &subsets).unwrap().is_none());
    // A subset listing an element twice covers it twice.
    assert!(solve_exact_cover(1, &vec![vec![1, 1]]).unwrap().is_none());
}
