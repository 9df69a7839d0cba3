use std::collections::HashMap;
use symnebula::expr::{contains_symbol, parse_side, parse_simple_eq, Expr};

/// Evaluates an expression with the given bindings (numbers read from
/// their literals), for checking what the parser built.
fn eval(e: &Expr, env: &HashMap<String, f64>) -> Result<f64, String> {
    match e {
        Expr::Number(t) => t.parse::<f64>().map_err(|_| format!("bad literal {}", t)),
        Expr::Symbol(s) => env.get(s).copied().ok_or(format!("undefined {}", s)),
        Expr::Neg(a) => Ok(-eval(a, env)?),
        Expr::Add(a, b) => Ok(eval(a, env)? + eval(b, env)?),
        Expr::Sub(a, b) => Ok(eval(a, env)? - eval(b, env)?),
        Expr::Mul(a, b) => Ok(eval(a, env)? * eval(b, env)?),
        Expr::Div(a, b) => Ok(eval(a, env)? / eval(b, env)?),
        Expr::Pow(a, b) => Ok(eval(a, env)?.powf(eval(b, env)?)),
        Expr::Eq(_, _) => Err("equation".to_string()),
    }
}

fn num(s: &str) -> Box<Expr> {
    Box::new(Expr::Number(s.to_string()))
}

fn sym(s: &str) -> Box<Expr> {
    Box::new(Expr::Symbol(s.to_string()))
}

#[test]
fn test_parse_and_eval() {
    let expr = parse_simple_eq("a + b = 10").unwrap();
    let syms = expr.symbols();
    assert!(syms.contains(&"a".to_string()));
    assert!(syms.contains(&"b".to_string()));

    let mut env = HashMap::new();
    env.insert("a".to_string(), 3.0);
    env.insert("b".to_string(), 7.0);
    match &expr {
        Expr::Eq(l, r) => {
            assert!((eval(l, &env).unwrap() - eval(r, &env).unwrap()).abs() < 1e-9);
        }
        _ => panic!("expected an equation"),
    }
}

#[test]
fn test_parse_constant() {
    let expr = parse_side("5").unwrap();
    assert_eq!(expr, Expr::Number("5".to_string()));
    assert_eq!("5".parse::<f64>().unwrap(), 5.0);
}

#[test]
fn test_parse_symbol() {
    let expr = parse_side("x").unwrap();
    assert_eq!(expr, Expr::Symbol("x".to_string()));
}

#[test]
fn test_division_to_pow() {
    let expr = parse_side("10 / 2").unwrap();
    let env = HashMap::new();
    assert!((eval(&expr, &env).unwrap() - 5.0).abs() < 1e-9);
    assert_eq!(expr, Expr::Mul(num("10"), Box::new(Expr::Pow(num("2"), num("-1")))));
}

#[test]
fn parse_side_splits_at_the_last_operator() {
    assert_eq!(
        parse_side("a - b + c").unwrap(),
        Expr::Add(Box::new(Expr::Sub(sym("a"), sym("b"))), sym("c"))
    );
    assert_eq!(
        parse_side("a * b + c").unwrap(),
        Expr::Add(Box::new(Expr::Mul(sym("a"), sym("b"))), sym("c"))
    );
    assert_eq!(parse_side("x ^ 2").unwrap(), Expr::Pow(sym("x"), num("2")));
    assert_eq!(parse_side("-3").unwrap(), Expr::Number("-3".to_string()));
    assert_eq!(parse_side("1e3").unwrap(), Expr::Number("1e3".to_string()));
}

#[test]
fn parse_side_rejects_and_quirks() {
    assert_eq!(parse_side("-x"), None);
    assert_eq!(parse_side("x1"), None);
    assert_eq!(parse_side("a + 1x"), None);
    // an empty side reads as the empty symbol
    assert_eq!(parse_side("a +").unwrap(), Expr::Add(sym("a"), sym("")));
    assert_eq!(parse_side("v_new").unwrap(), Expr::Symbol("v_new".to_string()));
    assert_eq!(parse_side("θ").unwrap(), Expr::Symbol("θ".to_string()));
}

#[test]
fn parse_simple_eq_needs_one_equals() {
    assert_eq!(parse_simple_eq("a = b = c"), None);
    assert_eq!(parse_simple_eq("a + b"), None);
    assert_eq!(parse_simple_eq("x = 5").unwrap(), Expr::Eq(sym("x"), num("5")));
    assert_eq!(parse_simple_eq(" x *x=4 ").unwrap(), Expr::Eq(Box::new(Expr::Mul(sym("x"), sym("x"))), num("4")));
    assert_eq!(parse_simple_eq("x = -y"), None);
}

#[test]
fn symbols_are_sorted_and_distinct() {
    let e = parse_simple_eq("b + a * b = c").unwrap();
    assert_eq!(e.symbols(), vec!["a".to_string(), "b".to_string(), "c".to_string()]);
    assert!(parse_side("42").unwrap().symbols().is_empty());
    assert!(contains_symbol(&e, "a"));
    assert!(!contains_symbol(&e, "d"));
    assert!(!contains_symbol(&parse_side("7").unwrap(), "x"));
}
