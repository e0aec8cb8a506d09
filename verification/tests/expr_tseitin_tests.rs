use cdcl_sat::expr::{find_max_var, Expr};
use cdcl_sat::tseitin::TseitinTransformer;

#[test]
fn test_find_max_var() {
    let expr = Expr::And(
        Box::new(Expr::Var(5)),
        Box::new(Expr::Or(Box::new(Expr::Var(3)), Box::new(Expr::Var(10)))),
    );
    assert_eq!(find_max_var(&expr), 10);
}

#[test]
fn test_expr_to_string() {
    let expr = Expr::And(Box::new(Expr::Var(1)), Box::new(Expr::Not(Box::new(Expr::Var(2)))));
    assert_eq!(expr.to_string(), "(and x1 (not x2))");
}

#[test]
fn test_tseitin_single_var() {
    let expr = Expr::Var(1);
    let max_var = find_max_var(&expr);
    let mut transformer = TseitinTransformer::new(max_var);
    let root = transformer.transform(&expr);
    assert_eq!(root, 1);
    assert!(transformer.clauses.is_empty());
}

#[test]
fn test_tseitin_not() {
    let expr = Expr::Not(Box::new(Expr::Var(1)));
    let max_var = find_max_var(&expr);
    let mut transformer = TseitinTransformer::new(max_var);
    let root = transformer.transform(&expr);
    assert_eq!(root, 2);
    assert_eq!(transformer.clauses.len(), 2);
}

#[test]
fn test_tseitin_and() {
    let expr = Expr::And(Box::new(Expr::Var(1)), Box::new(Expr::Var(2)));
    let max_var = find_max_var(&expr);
    let mut transformer = TseitinTransformer::new(max_var);
    let root = transformer.transform(&expr);
    assert_eq!(transformer.clauses.len(), 3);
    assert_eq!(root, 3);
}

#[test]
fn test_tseitin_or() {
    let expr = Expr::Or(Box::new(Expr::Var(1)), Box::new(Expr::Var(2)));
    let max_var = find_max_var(&expr);
    let mut transformer = TseitinTransformer::new(max_var);
    let root = transformer.transform(&expr);
    assert_eq!(transformer.clauses.len(), 3);
    assert_eq!(root, 3);
}

#[test]
fn test_tseitin_impl() {
    let expr = Expr::Impl(Box::new(Expr::Var(1)), Box::new(Expr::Var(2)));
    let max_var = find_max_var(&expr);
    let mut transformer = TseitinTransformer::new(max_var);
    let root = transformer.transform(&expr);
    assert_eq!(transformer.clauses.len(), 3);
    assert_eq!(root, 3);
}

#[test]
fn test_tseitin_equiv() {
    let expr = Expr::Equiv(Box::new(Expr::Var(1)), Box::new(Expr::Var(2)));
    let max_var = find_max_var(&expr);
    let mut transformer = TseitinTransformer::new(max_var);
    let root = transformer.transform(&expr);
    assert_eq!(transformer.clauses.len(), 4);
    assert_eq!(root, 3);
}

#[test]
fn test_tseitin_into_clauses_adds_unit() {
    let expr = Expr::And(Box::new(Expr::Var(1)), Box::new(Expr::Var(2)));
    let max_var = find_max_var(&expr);
    let mut transformer = TseitinTransformer::new(max_var);
    let root = transformer.transform(&expr);
    let clauses = transformer.into_clauses(root);
    assert_eq!(clauses.len(), 4);
    let last = &clauses[clauses.len() - 1];
    assert_eq!(last.literals.len(), 1);
    assert_eq!(last.literals[0].var, root);
    assert!(!last.literals[0].negated);
}

#[test]
fn expr_rendering_of_every_operator() {
    let e = Expr::Equiv(
        Box::new(Expr::Impl(Box::new(Expr::Var(12)), Box::new(Expr::Var(3)))),
        Box::new(Expr::Or(Box::new(Expr::Var(4)), Box::new(Expr::Not(Box::new(Expr::Var(5)))))),
    );
    assert_eq!(e.to_string(), "(equiv (impl x12 x3) (or x4 (not x5)))");
}

#[test]
fn test_rendering_parses_back() {
    let expr = Expr::Equiv(
        Box::new(Expr::Impl(
            Box::new(Expr::Var(12)),
            Box::new(Expr::Not(Box::new(Expr::Var(3)))),
        )),
        Box::new(Expr::Or(
            Box::new(Expr::Var(7)),
            Box::new(Expr::And(Box::new(Expr::Var(1)), Box::new(Expr::Var(40)))),
        )),
    );
    let text = expr.to_string();
    assert_eq!(text, "(equiv (impl x12 (not x3)) (or x7 (and x1 x40)))");
    let mut parser = cdcl_sat::parser::Parser::new(&text);
    assert_eq!(parser.parse(), Ok(expr));
}
