use symcalc::differentiate::{differentiate, CalcError};
use symcalc::integrate::{approx_integral, integrate_polynomial, IntegrateError};
use symcalc::parser::{BinaryOpKind, Expr, Parser, UnaryOpKind};
use symcalc::rat::Rat;
use symcalc::render::render_latex;
use symcalc::scanner::{Scanner, TokenType};
use symcalc::simplify::simplify;
use symcalc::substitute::substitute;

fn parse(src: &str) -> Expr {
    let mut scanner = Scanner::new(src.as_bytes().to_vec());
    let mut tokens = Vec::new();
    loop {
        let token = scanner.scan_token();
        let kind = token.kind;
        tokens.push(token);
        if kind == TokenType::Eof {
            break;
        }
    }
    let mut parser = Parser::new(tokens);
    parser.expression().expect("the source should parse")
}

fn num(n: i64, d: i64) -> Expr {
    Expr::Number(Rat::new(n, d).expect("the fraction should fit"))
}

fn var(name: &str) -> Expr {
    Expr::Var(name.as_bytes().to_vec())
}

fn to_f64(e: &Expr) -> f64 {
    match e {
        Expr::Number(v) => v.num as f64 / v.den as f64,
        _ => panic!("expected a number"),
    }
}

fn eval_at(e: &Expr, var_name: &str, value: Expr) -> Expr {
    let substituted = substitute(e.clone(), var_name.as_bytes().to_vec(), value);
    simplify(substituted, false).expect("simplification should succeed")
}

#[test]
fn round_trip_polynomial_render() {
    let e = simplify(parse("5*(x^2)"), false).expect("simplify");
    let text = render_latex(&e);
    assert_eq!(text, b"5 \\cdot x^{2}".to_vec());
}

#[test]
fn derivative_of_constant_and_variable() {
    let dc = simplify(
        differentiate(num(5, 1), b"x".to_vec()).expect("differentiate"),
        false,
    )
    .expect("simplify");
    assert_eq!(dc, num(0, 1));
    let dv = simplify(
        differentiate(var("x"), b"x".to_vec()).expect("differentiate"),
        false,
    )
    .expect("simplify");
    assert_eq!(dv, num(1, 1));
}

#[test]
fn power_rule_gives_three_x_squared() {
    let d = differentiate(parse("x^3"), b"x".to_vec()).expect("differentiate");
    let s = simplify(d, false).expect("simplify");
    let expected = Expr::BinaryOp(
        BinaryOpKind::Mul,
        Box::new(num(3, 1)),
        Box::new(Expr::BinaryOp(
            BinaryOpKind::Pow,
            Box::new(var("x")),
            Box::new(num(2, 1)),
        )),
    );
    assert_eq!(s, expected);
}

#[test]
fn product_rule_matches_two_x_at_samples() {
    let d = differentiate(parse("x * x"), b"x".to_vec()).expect("differentiate");
    let s = simplify(d, false).expect("simplify");
    for x in [0i64, 1, 3, -2] {
        let v = eval_at(&s, "x", num(x, 1));
        assert_eq!(v, num(2 * x, 1));
    }
}

#[test]
fn simplify_twice_equals_once() {
    let samples = [
        "x^3 - 2*x + 7",
        "1*(x + 0) + 3*0",
        "sin(x)*1 + cos(x)/1",
        "2^10 + 6/4",
        "x/(y*y) - (3 + 0)",
    ];
    for src in samples {
        let once = simplify(parse(src), false).expect("simplify");
        let twice = simplify(once.clone(), false).expect("simplify");
        assert_eq!(twice, once);
    }
}

#[test]
fn substitute_then_evaluate() {
    let step1 = simplify(
        substitute(parse("y*(x+5)"), b"x".to_vec(), num(5, 1)),
        false,
    )
    .expect("simplify");
    let step2 = simplify(
        substitute(step1, b"y".to_vec(), num(7, 2)),
        false,
    )
    .expect("simplify");
    assert_eq!(step2, num(35, 1));
}

#[test]
fn numeric_and_symbolic_integration_agree() {
    let numeric = approx_integral(
        parse("x^2"),
        b"x".to_vec(),
        Rat::new(0, 1).unwrap(),
        Rat::new(3, 1).unwrap(),
    )
    .expect("numeric integration");
    let anti = integrate_polynomial(parse("x^2"), b"x".to_vec()).expect("symbolic integration");
    let hi = to_f64(&eval_at(&anti, "x", num(3, 1)));
    let lo = to_f64(&eval_at(&anti, "x", num(0, 1)));
    let diff = to_f64(&numeric) - (hi - lo);
    assert!(diff.abs() < 1e-2, "numeric and symbolic disagree: {diff}");
}

#[test]
fn divergent_integral_reports_recoverable_error() {
    let r = approx_integral(
        parse("1/x"),
        b"x".to_vec(),
        Rat::new(-1, 1).unwrap(),
        Rat::new(1, 1).unwrap(),
    );
    assert!(r.is_err(), "the divergent integral must fail recoverably");
    assert_eq!(
        IntegrateError::NotANumber.message(),
        "Integration failed: expression did not simplify to a number"
    );
}

#[test]
fn non_numeric_sample_reports_recoverable_error() {
    // a free variable survives every sample, so no sample is a number
    let r = approx_integral(
        parse("x + y"),
        b"x".to_vec(),
        Rat::new(0, 1).unwrap(),
        Rat::new(1, 100).unwrap(),
    );
    assert_eq!(r, Err(IntegrateError::NotANumber));
}

#[test]
fn power_chains_combine_to_the_left() {
    // (2^3)^2 = 64, not 2^(3^2) = 512
    let v = simplify(parse("2^3^2"), false).expect("simplify");
    assert_eq!(v, num(64, 1));
}

#[test]
fn mixed_sum_chains_combine_to_the_left() {
    let v = simplify(parse("10-4+3-1"), false).expect("simplify");
    assert_eq!(v, num(8, 1));
}

#[test]
fn parse_builds_the_expected_tree() {
    let e = parse("x + 2 * y");
    let expected = Expr::BinaryOp(
        BinaryOpKind::Add,
        Box::new(var("x")),
        Box::new(Expr::BinaryOp(
            BinaryOpKind::Mul,
            Box::new(num(2, 1)),
            Box::new(var("y")),
        )),
    );
    assert_eq!(e, expected);
}

#[test]
fn parse_call_with_arguments() {
    let e = parse("f(x, 1)(y)");
    let inner = Expr::Call(Box::new(var("f")), vec![var("x"), num(1, 1)]);
    let expected = Expr::Call(Box::new(inner), vec![var("y")]);
    assert_eq!(e, expected);
}

#[test]
fn parse_rejects_bad_input() {
    let mut scanner = Scanner::new("1 + )".as_bytes().to_vec());
    let mut tokens = Vec::new();
    loop {
        let token = scanner.scan_token();
        let kind = token.kind;
        tokens.push(token);
        if kind == TokenType::Eof {
            break;
        }
    }
    let mut parser = Parser::new(tokens);
    assert!(parser.expression().is_err());
}

#[test]
fn parse_rejects_oversized_literal() {
    let mut scanner = Scanner::new("99999999999999999999999999999".as_bytes().to_vec());
    let mut tokens = Vec::new();
    loop {
        let token = scanner.scan_token();
        let kind = token.kind;
        tokens.push(token);
        if kind == TokenType::Eof {
            break;
        }
    }
    let mut parser = Parser::new(tokens);
    assert!(parser.expression().is_err());
}

#[test]
fn simplify_collapses_id_and_keeps_unknown_calls() {
    assert_eq!(simplify(parse("id(x)"), false).expect("simplify"), var("x"));
    // an unknown name is an opaque function symbol: the call stays,
    // its arguments simplified
    let kept = simplify(parse("f(x * 1)"), false).expect("simplify");
    assert_eq!(kept, Expr::Call(Box::new(var("f")), vec![var("x")]));
    assert_eq!(
        simplify(parse("id(x, y)"), false),
        Err(CalcError::WrongArity)
    );
}

#[test]
fn substitution_reaches_callees() {
    let e = parse("g(y)");
    let replaced = substitute(e, b"g".to_vec(), var("h"));
    assert_eq!(replaced, Expr::Call(Box::new(var("h")), vec![var("y")]));
}

#[test]
fn power_rule_integrates_only_the_bound_variable() {
    let e = parse("2 * y^3");
    assert_eq!(
        integrate_polynomial(e, b"x".to_vec()),
        Err(IntegrateError::Unsupported)
    );
}

#[test]
fn evaluate_flag_has_no_table_yet() {
    assert_eq!(
        simplify(parse("sin(x)"), true),
        Err(CalcError::NotImplemented)
    );
}

#[test]
fn derivative_table_for_elementary_calls() {
    // sin' = cos, applied by the chain rule
    let d = differentiate(parse("sin(x)"), b"x".to_vec()).expect("differentiate");
    let s = simplify(d, false).expect("simplify");
    let expected = Expr::Call(Box::new(var("cos")), vec![var("x")]);
    assert_eq!(s, expected);
    // ln takes exactly one argument
    assert_eq!(
        differentiate(parse("ln(x, y)"), b"x".to_vec()),
        Err(CalcError::WrongArity)
    );
}

#[test]
fn render_covers_the_special_forms() {
    assert_eq!(render_latex(&parse("x/y")), b"\\frac{x}{y}".to_vec());
    let recip = Expr::BinaryOp(
        BinaryOpKind::Pow,
        Box::new(var("x")),
        Box::new(num(-1, 1)),
    );
    assert_eq!(render_latex(&recip), b"\\frac{1}{x}".to_vec());
    let root = Expr::BinaryOp(
        BinaryOpKind::Pow,
        Box::new(var("x")),
        Box::new(num(1, 2)),
    );
    assert_eq!(render_latex(&root), b"\\sqrt{x}".to_vec());
    let trig_pow = Expr::BinaryOp(
        BinaryOpKind::Pow,
        Box::new(Expr::Call(Box::new(var("sin")), vec![var("x")])),
        Box::new(num(2, 1)),
    );
    assert_eq!(
        render_latex(&trig_pow),
        b"\\sin^{2}\\left(x\\right)".to_vec()
    );
    assert_eq!(
        render_latex(&parse("sin(x)")),
        b"\\sin\\left(x\\right)".to_vec()
    );
    assert_eq!(
        render_latex(&parse("g(x, y)")),
        b"g\\left(x, y\\right)".to_vec()
    );
    let neg = Expr::UnaryOp(UnaryOpKind::Neg, Box::new(var("x")));
    assert_eq!(render_latex(&neg), b"-x".to_vec());
    assert_eq!(render_latex(&parse("a - b + c")), b"a-b+c".to_vec());
}

#[test]
fn numbers_render_as_decimal_text() {
    assert_eq!(render_latex(&num(35, 1)), b"35".to_vec());
    assert_eq!(render_latex(&num(7, 2)), b"3.5".to_vec());
    assert_eq!(render_latex(&num(-1, 4)), b"-0.25".to_vec());
    // no finite decimal form: an explicit fraction
    assert_eq!(render_latex(&num(1, 3)), b"\\frac{1}{3}".to_vec());
}

#[test]
fn rationals_are_kept_in_lowest_terms() {
    assert_eq!(Rat::new(70, 2), Rat::new(35, 1));
    assert_eq!(Rat::new(-6, -4), Rat::new(3, 2));
    assert_eq!(Rat::new(1, 0), None);
    let parsed = parse("12.50");
    assert_eq!(parsed, num(25, 2));
}

#[test]
fn tenths_add_exactly() {
    // exact rational arithmetic: a tenth plus two tenths is three tenths
    let v = simplify(parse("0.1 + 0.2"), false).expect("simplify");
    assert_eq!(v, num(3, 10));
}

#[test]
fn mixed_products_flatten_into_one_fraction() {
    assert_eq!(
        render_latex(&parse("a*b/c*d")),
        b"\\frac{a \\cdot b \\cdot d}{c}".to_vec()
    );
    let apply = Expr::Call(
        Box::new(Expr::Call(Box::new(var("f")), vec![var("x")])),
        vec![var("y")],
    );
    assert_eq!(
        render_latex(&apply),
        b"\\left[f\\left(x\\right)\\right]\\left(y\\right)".to_vec()
    );
}

#[test]
fn constant_folding_is_exact() {
    assert_eq!(simplify(parse("2^10 + 1/4"), false).expect("simplify"), num(4097, 4));
    // division by an exact zero does not fold
    let undivided = simplify(parse("1/0"), false).expect("simplify");
    assert_eq!(
        undivided,
        Expr::BinaryOp(
            BinaryOpKind::Div,
            Box::new(num(1, 1)),
            Box::new(num(0, 1))
        )
    );
}

#[test]
fn negation_pushes_through_sums() {
    // -(x + 2) becomes -x + -2, with the constant folded
    let e = Expr::UnaryOp(
        UnaryOpKind::Neg,
        Box::new(Expr::BinaryOp(
            BinaryOpKind::Add,
            Box::new(var("x")),
            Box::new(num(2, 1)),
        )),
    );
    let s = simplify(e, false).expect("simplify");
    let expected = Expr::BinaryOp(
        BinaryOpKind::Add,
        Box::new(Expr::UnaryOp(UnaryOpKind::Neg, Box::new(var("x")))),
        Box::new(num(-2, 1)),
    );
    assert_eq!(s, expected);
}

#[test]
fn polynomial_antiderivatives() {
    // a bare constant: 5 -> 5 * x
    let c = integrate_polynomial(num(5, 1), b"x".to_vec()).expect("integrate");
    assert_eq!(
        c,
        Expr::BinaryOp(BinaryOpKind::Mul, Box::new(num(5, 1)), Box::new(var("x")))
    );
    // the variable itself: x -> 0.5 * x^2
    let v = integrate_polynomial(var("x"), b"x".to_vec()).expect("integrate");
    assert_eq!(
        v,
        Expr::BinaryOp(
            BinaryOpKind::Mul,
            Box::new(num(1, 2)),
            Box::new(Expr::BinaryOp(
                BinaryOpKind::Pow,
                Box::new(var("x")),
                Box::new(num(2, 1))
            ))
        )
    );
    // an unsupported shape is a recoverable error
    assert_eq!(
        integrate_polynomial(parse("sin(x)"), b"x".to_vec()),
        Err(IntegrateError::Unsupported)
    );
    // dividing by zero in the power rule is rejected, not computed
    let pow_minus_one = Expr::BinaryOp(
        BinaryOpKind::Pow,
        Box::new(var("x")),
        Box::new(num(-1, 1)),
    );
    assert!(integrate_polynomial(pow_minus_one, b"x".to_vec()).is_err());
}
