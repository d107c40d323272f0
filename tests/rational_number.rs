use rand::Rng;
use rational_expression::math::rand_variable;
use rational_expression::rational_number::{NumberDisplayFormat, RationalNumber};
use rational_expression::{gcf, lcm, round_i32, round_i64, Error, PlaceValue, WrapNumber, VARIABLES};

fn as_f32(r: &RationalNumber) -> f32 {
    let f = r.numerator as f32 / r.denominator as f32;
    if r.negative {
        -f
    } else {
        f
    }
}

fn parse(s: &str) -> RationalNumber {
    RationalNumber::parse(s).unwrap()
}

#[test]
fn adds() {
    let a = parse("2.5");
    let b = parse("1.5");
    assert_eq!(as_f32(&a.add(&b).unwrap()), 4.0);

    let a = parse("-2.5");
    let b = parse("1.5");
    assert_eq!(as_f32(&a.add(&b).unwrap()), -1.0);

    let a = parse("7");
    let b = parse("2");
    assert_eq!(as_f32(&a.add(&b).unwrap()), 9.0);

    let a = parse("10");
    let b = parse("3");
    assert_eq!(as_f32(&a.add(&b).unwrap()), 13.0);
}

#[test]
fn subtracts() {
    let a = parse("2.5");
    let b = parse("1.5");
    assert_eq!(as_f32(&a.sub(&b).unwrap()), 1.0);

    let a = parse("-2.5");
    let b = parse("1.5");
    assert_eq!(as_f32(&a.sub(&b).unwrap()), -4.0);

    let a = parse("7");
    let b = parse("2");
    assert_eq!(as_f32(&a.sub(&b).unwrap()), 5.0);

    let a = parse("10");
    let b = parse("3");
    assert_eq!(as_f32(&a.sub(&b).unwrap()), 7.0);
}

#[test]
fn parses_specific_decimals() {
    assert_eq!(as_f32(&parse("2.15")), 2.15);
    assert_eq!(as_f32(&parse("0.15")), 0.15);
    assert_eq!(as_f32(&parse(".15")), 0.15);
}

#[test]
fn parses_random_decimals() {
    let mut rng = rand::thread_rng();
    for _i in 0..100 {
        let mut f = rng.gen::<f32>();
        if rng.gen_bool(0.5) {
            f = -f;
        }
        let f = (f * 10_000_000 as f32).round() / 10_000_000 as f32;
        assert_eq!(as_f32(&RationalNumber::parse(&f.to_string()).unwrap()), f);
    }
}

#[test]
fn parses_specific_fractions() {
    assert_eq!(parse("1/3").as_str(None), "1/3");
    assert_eq!(parse("7/5").as_str(None), "7/5");
    assert_eq!(parse("10/20").as_str(None), "10/20");
}

#[test]
fn parses_specific_mixed_numbers() {
    assert_eq!(parse("2 1/5").as_str(None), "2 1/5");
    assert_eq!(parse("-2 1/5").as_str(None), "-2 1/5");
    assert_eq!(
        parse("5 4/10").as_str(Some(NumberDisplayFormat::Decimal(None))),
        "5.4"
    );
    assert_eq!(parse("8939 5776/9593").as_str(None), "8939 5776/9593");
}

#[test]
fn parses_random_mixed_numbers() {
    let mut rng = rand::thread_rng();
    for _i in 0..1_000 {
        let whole = rng.gen_range(1u32..=10_000u32);
        let denominator = rng.gen_range(2u32..=10_000u32);
        let numerator = rng.gen_range(1..denominator);

        let neg_str = if rng.gen_bool(0.5) { "-" } else { "" };

        let mixed_number_str = format!("{}{} {}/{}", neg_str, whole, numerator, denominator);
        assert_eq!(
            RationalNumber::parse(&mixed_number_str)
                .unwrap()
                .as_str(Some(NumberDisplayFormat::Mixed)),
            mixed_number_str
        );
    }
}

#[test]
fn checks_repeating() {
    assert_eq!(parse("1/2").repeating(), false);
    assert_eq!(parse("1/8").repeating(), false);
    assert_eq!(parse("0").repeating(), false);
    assert_eq!(parse("4/2").repeating(), false);
    assert_eq!(parse("4/3").repeating(), true);
    assert_eq!(parse("1/7").repeating(), true);
    assert_eq!(parse("14/7").repeating(), false);
    assert_eq!(parse("1/11").repeating(), true);
}

#[test]
fn prints_decimals() {
    assert_eq!(parse("1/100").as_decimal_str(), ("0.01".to_string(), None));
    assert_eq!(parse("19/270").as_decimal_str(), ("0.0703".to_string(), Some(3)));
    assert_eq!(parse("0").as_decimal_str(), ("0".to_string(), None));
    assert_eq!(parse("4/2").as_decimal_str(), ("2".to_string(), None));
    assert_eq!(parse("4/3").as_decimal_str(), ("1.3".to_string(), Some(1)));
    assert_eq!(parse("10/3").as_decimal_str(), ("3.3".to_string(), Some(1)));
    assert_eq!(parse("1/7").as_decimal_str(), ("0.142857".to_string(), Some(6)));
    assert_eq!(parse("14/7").as_decimal_str(), ("2".to_string(), None));
    assert_eq!(parse("1/11").as_decimal_str(), ("0.09".to_string(), Some(2)));
}

#[test]
fn prints_string_decimals() {
    let decimal = |p| Some(NumberDisplayFormat::Decimal(p));
    assert_eq!(parse("1/5").as_str(decimal(None)), "0.2");
    assert_eq!(parse("-1/4").as_str(decimal(None)), "-0.25");
    assert_eq!(parse("1/3").as_str(decimal(Some(PlaceValue::Hundredths))), "0.33");
    assert_eq!(parse("7/11").as_str(decimal(Some(PlaceValue::TenThousandths))), "0.6364");
    assert_eq!(parse("21/5").as_str(decimal(Some(PlaceValue::Thousandths))), "4.200");
    assert_eq!(parse("7/11").as_str(decimal(None)), "0.bar63");
    assert_eq!(parse("1/7").as_str(decimal(None)), "0.bar142857");
}

#[test]
fn repeating_block_after_a_prefix() {
    let decimal = Some(NumberDisplayFormat::Decimal(None));
    assert_eq!(parse("19/270").as_str(decimal), "0.0bar703");
    assert_eq!(parse("1/6").as_str(decimal), "0.1bar6");
    assert_eq!(
        parse("19/270").as_str(Some(NumberDisplayFormat::Decimal(Some(PlaceValue::Millionths)))),
        "0.070370"
    );
}

#[test]
fn rounds_at_places() {
    let at = |p| Some(NumberDisplayFormat::Decimal(Some(p)));
    assert_eq!(parse("1/8").as_str(at(PlaceValue::Hundredths)), "0.13");
    assert_eq!(parse("-1/8").as_str(at(PlaceValue::Hundredths)), "-0.13");
    assert_eq!(parse("1/8").as_str(at(PlaceValue::Tenths)), "0.1");
    assert_eq!(parse("2.96").as_str(at(PlaceValue::Tenths)), "3.0");
    assert_eq!(parse("1235").as_str(at(PlaceValue::Tens)), "1240");
    assert_eq!(parse("-1234.9").as_str(at(PlaceValue::Ones)), "-1234");
    assert_eq!(parse("-4").as_str(at(PlaceValue::Tens)), "0");
    assert_eq!(parse("1500000").as_str(at(PlaceValue::Millions)), "2000000");
}

#[test]
fn zero_and_fraction_forms() {
    assert_eq!(parse("0").as_str(Some(NumberDisplayFormat::Mixed)), "0");
    assert_eq!(parse("0/5").as_str(None), "0");
    assert_eq!(parse("-7/2").as_str(Some(NumberDisplayFormat::Fraction)), "-7/2");
    assert_eq!(parse("-7/2").as_str(Some(NumberDisplayFormat::Mixed)), "-3 1/2");
    assert_eq!(parse("6/3").as_str(Some(NumberDisplayFormat::Mixed)), "2");
}

#[test]
fn integer_views() {
    let half = RationalNumber::new(3, 2, false, NumberDisplayFormat::Fraction);
    assert!(matches!(half.as_i32(), Err(Error::NotInteger)));
    assert_eq!(parse("-6/3").as_i32().unwrap(), -2);
    assert_eq!(parse("2147483648").as_i32().unwrap_err(), Error::Overflow);
    assert_eq!(parse("-2147483648").as_i32().unwrap(), i32::MIN);
}

#[test]
fn reading_errors() {
    assert_eq!(RationalNumber::parse("abc").unwrap_err(), Error::ParseRationalExpression);
    assert_eq!(RationalNumber::parse("1/0").unwrap_err(), Error::DivisionByZero);
    assert_eq!(RationalNumber::parse("99999999999").unwrap_err(), Error::Overflow);
    assert_eq!(RationalNumber::parse("0.1234567891").unwrap_err(), Error::Overflow);
    assert_eq!(RationalNumber::parse("1 2").unwrap_err(), Error::ParseRationalExpression);
    assert_eq!(RationalNumber::parse("").unwrap_err(), Error::ParseRationalExpression);
}

#[test]
fn reading_forms() {
    let r = parse("  - 3 1/4 ");
    assert_eq!((r.numerator, r.denominator, r.negative), (13, 4, true));
    let r = parse("+12 / 5");
    assert_eq!((r.numerator, r.denominator, r.negative), (12, 5, false));
    let r = parse("2.50");
    assert_eq!((r.numerator, r.denominator), (5, 2));
    let r = parse("7.");
    assert_eq!((r.numerator, r.denominator), (7, 1));
}

#[test]
fn arithmetic_identities_on_values() {
    let a = parse("1/3");
    let b = parse("-1/6");
    assert!(a.add(&b).unwrap() == b.add(&a).unwrap());
    assert!(a.mul(&b).unwrap() == b.mul(&a).unwrap());
    assert!(a.sub(&b).unwrap().add(&b).unwrap() == a);
    assert!(a.div(&b).unwrap().mul(&b).unwrap() == a);
    assert!(a.add(&b).unwrap() == parse("1/6"));
}

#[test]
fn arithmetic_errors() {
    let big = parse("4294967295");
    assert_eq!(big.add(&parse("1")).unwrap_err(), Error::Overflow);
    assert_eq!(big.mul(&parse("2")).unwrap_err(), Error::Overflow);
    assert_eq!(parse("1").div(&parse("0")).unwrap_err(), Error::DivisionByZero);
    assert_eq!(parse("0").reciprocal().unwrap_err(), Error::DivisionByZero);
    assert_eq!(parse("2").pow(&parse("1/2")).unwrap_err(), Error::NotInteger);
    assert_eq!(parse("2").pow(&parse("40")).unwrap_err(), Error::Overflow);
    assert_eq!(parse("1/2").pow(&parse("33")).unwrap_err(), Error::Overflow);
}

#[test]
fn exact_results() {
    let r = parse("1/3").add(&parse("1/6")).unwrap();
    assert_eq!((r.numerator, r.denominator, r.negative), (3, 6, false));
    let r = parse("1/3").sub(&parse("1/2")).unwrap();
    assert_eq!((r.numerator, r.denominator, r.negative), (1, 6, true));
    let r = parse("2/3").mul(&parse("-3/4")).unwrap();
    assert_eq!((r.numerator, r.denominator, r.negative), (6, 12, true));
    let r = parse("2/3").div(&parse("4/5")).unwrap();
    assert_eq!((r.numerator, r.denominator), (10, 12));
    let r = parse("2/3").pow(&parse("-2")).unwrap();
    assert_eq!((r.numerator, r.denominator), (9, 4));
    let r = parse("10/4").simplify();
    assert_eq!((r.numerator, r.denominator), (5, 2));
    let r = parse("3/7").reciprocal().unwrap();
    assert_eq!((r.numerator, r.denominator), (7, 3));
    assert!(parse("-3/7").abs() == parse("3/7"));
    assert!(parse("3/7").neg() == parse("-3/7"));
}

#[test]
fn compares_values() {
    assert!(parse("1/3") < parse("1/2"));
    assert!(parse("-1/2") < parse("-1/3"));
    assert!(parse("-5") < parse("1/100"));
    assert!(parse("2/4") == parse("1/2"));
    assert!(parse("2/4") != parse("-1/2"));
}

#[test]
fn formats_and_conversions() {
    let r = parse("3/4");
    assert_eq!(r.display_format(), NumberDisplayFormat::Mixed);
    let r = r.set_display_format(NumberDisplayFormat::Fraction);
    assert_eq!(r.display_format(), NumberDisplayFormat::Fraction);
    assert!(RationalNumber::from(-4i32) == parse("-4"));
    assert!(RationalNumber::from(4u32) == parse("4"));
    assert_eq!(parse("-1/2").wrap_if_neg(), "(-1/2)");
    assert_eq!(parse("1/2").wrap_if_neg(), "1/2");
}

#[test]
fn divisors_and_rounding() {
    assert_eq!(gcf(12, 18), 6);
    assert_eq!(gcf(0, 5), 5);
    assert_eq!(gcf(7, 0), 7);
    assert_eq!(lcm(4, 6), 12);
    assert_eq!(round_i64(1250, PlaceValue::Hundreds), 1300);
    assert_eq!(round_i64(-1250, PlaceValue::Hundreds), -1300);
    assert_eq!(round_i64(1249, PlaceValue::Hundreds), 1200);
    assert_eq!(round_i32(17, PlaceValue::Tenths), 17);
    assert_eq!(i32::from(PlaceValue::Millionths), -6);
    assert_eq!(PlaceValue::from_exponent(3), Some(PlaceValue::Thousands));
    assert_eq!(PlaceValue::from_exponent(7), None);
    assert_eq!(PlaceValue::TenThousandths.as_str(), "ten thousandths");
    assert_eq!(Error::NotInteger.as_str(), "NotIntegerError");
}

#[test]
fn random_variable_is_a_letter() {
    let mut rng = rand::thread_rng();
    let count = VARIABLES.chars().count();
    for _i in 0..50 {
        let c = rand_variable(rng.gen_range(0..count));
        assert!(VARIABLES.contains(c));
    }
    assert_eq!(rand_variable(0), 'a');
    assert_eq!(rand_variable(count - 1), 'z');
}

#[test]
fn powers_use_the_base_in_lowest_terms() {
    let r = RationalNumber::new(65536, 65536, false, NumberDisplayFormat::Fraction)
        .pow(&parse("2"))
        .unwrap();
    assert_eq!((r.numerator, r.denominator), (1, 1));
    let r = parse("6/4").pow(&parse("3")).unwrap();
    assert_eq!((r.numerator, r.denominator), (27, 8));
}

#[test]
fn zero_is_never_negative() {
    let one = parse("1");
    let minus_one = parse("-1");
    let a = one.add(&minus_one).unwrap();
    let b = minus_one.add(&one).unwrap();
    assert!(!a.negative && !b.negative);
    assert!(a == b);
    let zero = parse("0");
    assert!(zero.sub(&minus_one).unwrap().add(&minus_one).unwrap() == zero);
    assert!(!parse("-0").negative);
    assert!(!parse("-0/3").negative);
    assert!(!zero.mul(&minus_one).unwrap().negative);
    assert!(!zero.div(&minus_one).unwrap().negative);
    assert!(!zero.neg().negative);
    assert_eq!(parse("-0").as_str(None), "0");
}
