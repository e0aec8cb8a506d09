use cdcl_sat::cryptarithmetic::solve_cryptarithmetic;

fn digit_of(sol: &[(char, usize)], c: char) -> usize {
    sol.iter().find(|(l, _)| *l == c).unwrap().1
}

fn value(sol: &[(char, usize)], w: &str) -> usize {
    w.chars().fold(0, |acc, c| acc * 10 + digit_of(sol, c))
}

#[test]
fn test_to_go_out() {
    let sol = solve_cryptarithmetic("TO", "GO", "OUT").expect("puzzle has a solution");
    let letters: Vec<char> = sol.iter().map(|p| p.0).collect();
    assert_eq!(letters, vec!['T', 'O', 'G', 'U']);
    assert_eq!(digit_of(&sol, 'T'), 2);
    assert_eq!(digit_of(&sol, 'O'), 1);
    assert_eq!(digit_of(&sol, 'G'), 8);
    assert_eq!(digit_of(&sol, 'U'), 0);
    assert_eq!(value(&sol, "TO") + value(&sol, "GO"), value(&sol, "OUT"));
}

#[test]
fn test_small_sum_is_consistent() {
    let sol = solve_cryptarithmetic("A", "B", "CD").expect("puzzle has a solution");
    assert_eq!(sol.len(), 4);
    let a = digit_of(&sol, 'A');
    let b = digit_of(&sol, 'B');
    let c = digit_of(&sol, 'C');
    let d = digit_of(&sol, 'D');
    assert_eq!(a + b, c * 10 + d);
    assert_eq!(c, 1);
    let mut ds = vec![a, b, c, d];
    ds.sort();
    ds.dedup();
    assert_eq!(ds.len(), 4);
    assert!(a != 0 && b != 0);
}

#[test]
fn test_no_solution() {
    assert!(solve_cryptarithmetic("AB", "AB", "AB").is_none());
}

#[test]
fn test_too_many_letters() {
    assert!(solve_cryptarithmetic("ABCDEFGHIJ", "K", "L").is_none());
}
