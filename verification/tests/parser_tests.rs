use cdcl_sat::expr::Expr;
use cdcl_sat::parser::{ParseError, Parser};

#[test]
fn test_parse_single_variable() {
    let mut parser = Parser::new("x1");
    let expr = parser.parse().unwrap();
    assert!(matches!(expr, Expr::Var(1)));
}

#[test]
fn test_parse_variable_with_parens() {
    let mut parser = Parser::new("(x42)");
    let expr = parser.parse().unwrap();
    assert!(matches!(expr, Expr::Var(42)));
}

#[test]
fn test_parse_not() {
    let mut parser = Parser::new("(not x1)");
    let expr = parser.parse().unwrap();
    if let Expr::Not(inner) = expr {
        assert!(matches!(*inner, Expr::Var(1)));
    } else {
        panic!("Expected Not expression");
    }
}

#[test]
fn test_parse_and() {
    let mut parser = Parser::new("(and x1 x2)");
    let expr = parser.parse().unwrap();
    if let Expr::And(left, right) = expr {
        assert!(matches!(*left, Expr::Var(1)));
        assert!(matches!(*right, Expr::Var(2)));
    } else {
        panic!("Expected And expression");
    }
}

#[test]
fn test_parse_or() {
    let mut parser = Parser::new("(or x3 x4)");
    let expr = parser.parse().unwrap();
    if let Expr::Or(left, right) = expr {
        assert!(matches!(*left, Expr::Var(3)));
        assert!(matches!(*right, Expr::Var(4)));
    } else {
        panic!("Expected Or expression");
    }
}

#[test]
fn test_parse_impl() {
    let mut parser = Parser::new("(impl x1 x2)");
    let expr = parser.parse().unwrap();
    if let Expr::Impl(left, right) = expr {
        assert!(matches!(*left, Expr::Var(1)));
        assert!(matches!(*right, Expr::Var(2)));
    } else {
        panic!("Expected Impl expression");
    }
}

#[test]
fn test_parse_equiv() {
    let mut parser = Parser::new("(equiv x1 x2)");
    let expr = parser.parse().unwrap();
    if let Expr::Equiv(left, right) = expr {
        assert!(matches!(*left, Expr::Var(1)));
        assert!(matches!(*right, Expr::Var(2)));
    } else {
        panic!("Expected Equiv expression");
    }
}

#[test]
fn test_parse_nested() {
    let mut parser = Parser::new("(and (or x1 x2) (not x3))");
    let expr = parser.parse().unwrap();
    if let Expr::And(left, right) = expr {
        assert!(matches!(*left, Expr::Or(_, _)));
        assert!(matches!(*right, Expr::Not(_)));
    } else {
        panic!("Expected nested And expression");
    }
}

#[test]
fn test_parse_deeply_nested() {
    let mut parser = Parser::new("(and (or (not x1) x2) (impl x3 (equiv x4 x5)))");
    let expr = parser.parse().unwrap();
    assert!(matches!(expr, Expr::And(_, _)));
}

#[test]
fn test_parse_whitespace_handling() {
    let mut parser = Parser::new("  (  and   x1    x2  )  ");
    let expr = parser.parse().unwrap();
    assert!(matches!(expr, Expr::And(_, _)));
}

#[test]
fn test_parse_large_variable_number() {
    let mut parser = Parser::new("x999");
    let expr = parser.parse().unwrap();
    assert!(matches!(expr, Expr::Var(999)));
}

#[test]
fn test_parse_error_unknown_operator() {
    let mut parser = Parser::new("(foo x1 x2)");
    let result = parser.parse();
    assert!(matches!(result, Err(ParseError::UnknownOperator(_))));
}

#[test]
fn test_parse_error_invalid_variable() {
    let mut parser = Parser::new("xabc");
    let result = parser.parse();
    assert!(matches!(result, Err(ParseError::InvalidVariable(_))));
}

#[test]
fn test_parse_error_unexpected_token() {
    let mut parser = Parser::new("123");
    let result = parser.parse();
    assert!(matches!(result, Err(ParseError::UnexpectedToken(_))));
}

#[test]
fn parse_error_messages() {
    let mut p = Parser::new("(and x1");
    let e = p.parse().unwrap_err();
    assert_eq!(e, ParseError::UnexpectedEndOfInput);
    assert_eq!(e.to_string(), "Unexpected end of input");
    let mut p2 = Parser::new("(not x1 x2)");
    let e2 = p2.parse().unwrap_err();
    assert_eq!(
        e2,
        ParseError::ExpectedToken { expected: ")".to_string(), found: "x2".to_string() }
    );
    assert_eq!(e2.to_string(), "Expected ')', found 'x2'");
    assert_eq!(ParseError::InvalidVariable("xq".to_string()).to_string(), "Invalid variable: 'xq'");
}
