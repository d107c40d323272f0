use rational_expression::expression::{parse_first_expression, Expression, ExpressionOperation, ExpressionValue};
use rational_expression::rational_number::{NumberDisplayFormat, RationalNumber};
use rational_expression::{parse_expression, Error};

fn as_f32(r: &RationalNumber) -> f32 {
    let f = r.numerator as f32 / r.denominator as f32;
    if r.negative {
        -f
    } else {
        f
    }
}

fn value_of_f32(f: f32) -> ExpressionValue {
    ExpressionValue::from(RationalNumber::parse(&f.to_string()).unwrap())
}

fn eval_text(s: &str) -> RationalNumber {
    parse_expression(s).unwrap().evaluate().unwrap()
}

#[test]
fn evaluates_raw_operations() {
    let e = Expression::new(ExpressionValue::from(7));
    assert_eq!(e.evaluate().unwrap().as_i32().unwrap(), 7);

    let e = Expression::new(ExpressionValue::from(3)).add(ExpressionValue::from(5));
    assert_eq!(e.evaluate().unwrap().as_i32().unwrap(), 8);

    let e = Expression::new(ExpressionValue::from(3)).add(ExpressionValue::from(-5));
    assert_eq!(e.evaluate().unwrap().as_i32().unwrap(), -2);

    let e = Expression::new(ExpressionValue::from(3)).sub(ExpressionValue::from(-5));
    assert_eq!(e.evaluate().unwrap().as_i32().unwrap(), 8);

    let e = Expression::new(ExpressionValue::from(3)).div(ExpressionValue::from(-5));
    assert_eq!(as_f32(&e.evaluate().unwrap()), -0.6);

    let e = Expression::new(value_of_f32(1.3)).add(value_of_f32(0.2));
    assert_eq!(as_f32(&e.evaluate().unwrap()), 1.5);

    let e = parse_expression("(2 + 3)/2 * 7^2").unwrap();
    assert_eq!(
        e.evaluate().unwrap().as_str(Some(NumberDisplayFormat::Mixed)),
        "122 1/2"
    );
}

#[test]
fn evaluates_with_subexpressions() {
    let sub_a = Expression::new(ExpressionValue::from(4)).add(ExpressionValue::from(1));
    let sub_b = Expression::new(ExpressionValue::from(5)).add(ExpressionValue::from(8));

    let e = sub_a.sub(ExpressionValue::from(sub_b));
    assert_eq!(e.evaluate().unwrap().as_i32().unwrap(), -8);
}

#[test]
fn parses_strings() {
    let e = parse_expression("3.1+1-:2 * -5").unwrap();
    assert_eq!(e.evaluate().unwrap().simplify().as_str(None), "0.6");

    let e = parse_expression("8/4 * 2 + -3 - 12").unwrap();
    assert_eq!(e.evaluate().unwrap().simplify().as_str(None), "-11");

    let e = parse_expression("(3 + 1) * (4 - 7)").unwrap();
    assert_eq!(e.evaluate().unwrap().simplify().as_str(None), "-12");

    let e = parse_expression("(2)").unwrap();
    assert_eq!(e.evaluate().unwrap().simplify().as_str(None), "2");

    let e = parse_expression("(2)^2(-3)(-4)").unwrap();
    assert_eq!(e.evaluate().unwrap().simplify().as_str(None), "48");

    let e = parse_expression("3(3 + 1) - (2 + 1)^3").unwrap();
    assert_eq!(e.evaluate().unwrap().simplify().as_str(None), "-15");
}

#[test]
fn multiplication_binds_tighter_than_addition() {
    assert_eq!(eval_text("2 + 3 * 4").as_i32().unwrap(), 14);
    assert_eq!(eval_text("(2 + 3) * 4").as_i32().unwrap(), 20);
    assert_eq!(eval_text("2 ^ 3 + 1").as_i32().unwrap(), 9);
    assert_eq!(eval_text("[2 + 3] * 4").as_i32().unwrap(), 20);
}

#[test]
fn juxtaposed_groups_multiply() {
    assert_eq!(eval_text("(2)(3)").as_i32().unwrap(), 6);
    assert_eq!(eval_text("3(3 + 1) - (2 + 1)^3").as_i32().unwrap(), -15);
    assert_eq!(eval_text("(2) (3)").as_i32().unwrap(), 6);
}

#[test]
fn equal_priorities_go_left_to_right() {
    assert_eq!(eval_text("8/4*2").as_i32().unwrap(), 4);
    assert_eq!(eval_text("8 -: 4 * 2").as_i32().unwrap(), 4);
    assert_eq!(eval_text("10 - 4 + 3").as_i32().unwrap(), 9);
}

#[test]
fn end_to_end_decimal_results() {
    let r = eval_text("3.1+1/2 * -5").simplify();
    assert_eq!(r.as_str(Some(NumberDisplayFormat::Decimal(None))), "0.6");
    let r = eval_text("8/4 * 2 + -3 - 12").simplify();
    assert_eq!(r.as_str(Some(NumberDisplayFormat::Decimal(None))), "-11");
}

#[test]
fn malformed_groups_are_refused() {
    assert!(matches!(parse_expression("()"), Err(Error::ParseExpression)));
    assert!(matches!(parse_expression("(2"), Err(Error::ParseExpression)));
    assert!(matches!(parse_expression(""), Err(Error::ParseExpression)));
    assert!(matches!(parse_expression("2 +"), Err(Error::ParseExpression)));
    assert!(matches!(parse_expression("2 x"), Err(Error::ParseExpression)));
}

#[test]
fn arithmetic_errors_surface_from_evaluation() {
    let e = parse_expression("1/(0)").unwrap();
    assert!(matches!(e.evaluate(), Err(Error::DivisionByZero)));
    let e = parse_expression("4294967295 * 2").unwrap();
    assert!(matches!(e.evaluate(), Err(Error::Overflow)));
    let e = parse_expression("2 ^ (1/2)").unwrap();
    assert!(matches!(e.evaluate(), Err(Error::NotInteger)));
    let e = parse_expression("0 ^ -1").unwrap();
    assert!(matches!(e.evaluate(), Err(Error::DivisionByZero)));
}

#[test]
fn negative_exponents_invert() {
    let r = eval_text("2 ^ -2");
    assert_eq!(r.as_str(Some(NumberDisplayFormat::Fraction)), "1/4");
    let r = eval_text("(-2) ^ 3");
    assert_eq!(r.as_i32().unwrap(), -8);
}

#[test]
fn one_step_at_a_time() {
    let e = parse_expression("1 + 2 * 3").unwrap();
    let step = e.evaluate_next().unwrap();
    let next = step.expression();
    assert_eq!(next.values().len(), 2);
    assert_eq!(next.operations().len(), 1);
    assert_eq!(next.values()[1].number().as_i32().unwrap(), 6);
    let e = parse_expression("(1 + 2) * 3").unwrap();
    let step = e.evaluate_next().unwrap();
    let first = step.expression().values()[0].number();
    assert_eq!(first.as_i32().unwrap(), 3);
}

#[test]
fn writes_expressions() {
    let e = parse_expression("(1 + 2)*3 -: 4^2").unwrap();
    assert_eq!(e.to_string(), "(1 + 2) * 3 -: 4^2");
    let e = Expression::new(ExpressionValue::from(2)).pow(ExpressionValue::from(3));
    assert_eq!(e.to_string(), "2^3");
    let e = Expression::new(ExpressionValue::from(2)).mul(ExpressionValue::from(3));
    assert_eq!(e.evaluate().unwrap().as_i32().unwrap(), 6);
}

#[test]
fn deep_nesting_is_refused() {
    let deep = format!("{}1{}", "(".repeat(200), ")".repeat(200));
    assert!(matches!(parse_expression(&deep), Err(Error::ParseExpression)));
    let fine = format!("{}1{}", "(".repeat(100), ")".repeat(100));
    assert_eq!(parse_expression(&fine).unwrap().evaluate().unwrap().as_i32().unwrap(), 1);
}

#[test]
fn reads_a_leading_group() {
    let (end, e) = parse_first_expression("(1+2) * 3").unwrap().unwrap();
    assert_eq!(end, 5);
    assert_eq!(e.evaluate().unwrap().as_i32().unwrap(), 3);
    assert!(parse_first_expression("1 + 2").unwrap().is_none());
    assert!(matches!(parse_first_expression("[1 + 2"), Err(Error::ParseExpression)));
    assert_eq!(ExpressionOperation::Exponent.as_str(), "Exponent");
}
