use cdcl_sat::puzzle_input::{parse_clue_line, parse_dims, parse_nonogram};

#[test]
fn test_parse_dims() {
    assert_eq!(parse_dims(&"3 4".to_string()).unwrap(), (3, 4));
    assert_eq!(parse_dims(&"3 -4".to_string()).unwrap_err(), "Invalid dimension");
    assert_eq!(parse_dims(&"3 4 5".to_string()).unwrap_err(), "Expected 'rows cols' on first line");
}

#[test]
fn test_parse_clue_line() {
    assert_eq!(parse_clue_line(&"".to_string()).unwrap(), vec![0]);
    assert_eq!(parse_clue_line(&"  0 ".to_string()).unwrap(), vec![0]);
    assert_eq!(parse_clue_line(&"1 2 3".to_string()).unwrap(), vec![1, 2, 3]);
    assert_eq!(parse_clue_line(&"1 a".to_string()).unwrap_err(), "Invalid clue");
}

#[test]
fn test_parse_nonogram() {
    let lines: Vec<String> = ["2 3", "1 1", "3", "2", "1", "2"].iter().map(|s| s.to_string()).collect();
    let (rows, cols, rc, cc) = parse_nonogram(&lines).unwrap();
    assert_eq!((rows, cols), (2, 3));
    assert_eq!(rc, vec![vec![1, 1], vec![3]]);
    assert_eq!(cc, vec![vec![2], vec![1], vec![2]]);
    let short: Vec<String> = ["2 3", "1 1"].iter().map(|s| s.to_string()).collect();
    assert_eq!(parse_nonogram(&short).unwrap_err(), "Missing row clue");
    let short_cols: Vec<String> = ["1 2", "1", "1"].iter().map(|s| s.to_string()).collect();
    assert_eq!(parse_nonogram(&short_cols).unwrap_err(), "Missing column clue");
    assert_eq!(parse_nonogram(&vec![]).unwrap_err(), "Missing first line");
}
