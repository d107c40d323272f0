//! Exact rational arithmetic and a precedence-driven expression evaluator.
use vstd::prelude::*;

pub mod digits;
pub mod expression;
pub mod math;
pub mod number_parse;
pub mod number_text;
pub mod number_theory;
pub mod rational_number;
pub mod scan;

use crate::expression::{expr_spec, nesting, nesting_in, parse_expression_in, Expression, MAX_NESTING};
use crate::number_theory::{gcd, lcm_spec, lemma_gcd_divides, lemma_lcm_multiple};
use crate::number_text::as_str_spec;
use crate::rational_number::RationalNumber;
use crate::scan::{chars_of, window};

verus! {

/// What can go wrong while reading or computing with rational numbers.
#[derive(Debug, Clone, Copy, PartialEq, Eq, Structural)]
pub enum Error {
    /// The text is not a rational number.
    ParseRationalExpression,
    /// The text is not an expression.
    ParseExpression,
    /// An integer was asked of a value that is not one.
    NotInteger,
    /// A zero denominator would arise.
    DivisionByZero,
    /// A numerator or denominator does not fit in 32 bits.
    Overflow,
}

pub type Result<T> = core::result::Result<T, Error>;

/// A decimal place, from millions down to millionths.
#[derive(Debug, Clone, Copy, PartialEq, Eq, Structural)]
pub enum PlaceValue {
    Millions,
    HundredThousands,
    TenThousands,
    Thousands,
    Hundreds,
    Tens,
    Ones,
    Tenths,
    Hundredths,
    Thousandths,
    TenThousandths,
    HundredThousandths,
    Millionths,
}

/// The power of ten that a place stands for.
pub open spec fn place_exponent(p: PlaceValue) -> int {
    match p {
        PlaceValue::Millions => 6,
        PlaceValue::HundredThousands => 5,
        PlaceValue::TenThousands => 4,
        PlaceValue::Thousands => 3,
        PlaceValue::Hundreds => 2,
        PlaceValue::Tens => 1,
        PlaceValue::Ones => 0,
        PlaceValue::Tenths => -1,
        PlaceValue::Hundredths => -2,
        PlaceValue::Thousandths => -3,
        PlaceValue::TenThousandths => -4,
        PlaceValue::HundredThousandths => -5,
        PlaceValue::Millionths => -6,
    }
}

pub open spec fn place_name(p: PlaceValue) -> Seq<char> {
    match p {
        PlaceValue::Millions => "millions"@,
        PlaceValue::HundredThousands => "hundred thousands"@,
        PlaceValue::TenThousands => "ten thousands"@,
        PlaceValue::Thousands => "thousands"@,
        PlaceValue::Hundreds => "hundreds"@,
        PlaceValue::Tens => "tens"@,
        PlaceValue::Ones => "ones"@,
        PlaceValue::Tenths => "tenths"@,
        PlaceValue::Hundredths => "hundredths"@,
        PlaceValue::Thousandths => "thousandths"@,
        PlaceValue::TenThousandths => "ten thousandths"@,
        PlaceValue::HundredThousandths => "hundred thousandths"@,
        PlaceValue::Millionths => "millionths"@,
    }
}

impl PlaceValue {
    /// The place's name in words.
    pub fn as_str(&self) -> (r: String)
        ensures
            r@ == place_name(*self),
    {
        let s = match self {
            PlaceValue::Millions => "millions",
            PlaceValue::HundredThousands => "hundred thousands",
            PlaceValue::TenThousands => "ten thousands",
            PlaceValue::Thousands => "thousands",
            PlaceValue::Hundreds => "hundreds",
            PlaceValue::Tens => "tens",
            PlaceValue::Ones => "ones",
            PlaceValue::Tenths => "tenths",
            PlaceValue::Hundredths => "hundredths",
            PlaceValue::Thousandths => "thousandths",
            PlaceValue::TenThousandths => "ten thousandths",
            PlaceValue::HundredThousandths => "hundred thousandths",
            PlaceValue::Millionths => "millionths",
        };
        String::from_str(s)
    }

    /// The power of ten of this place.
    pub fn exponent(&self) -> (r: i32)
        ensures
            r == place_exponent(*self),
    {
        match self {
            PlaceValue::Millions => 6,
            PlaceValue::HundredThousands => 5,
            PlaceValue::TenThousands => 4,
            PlaceValue::Thousands => 3,
            PlaceValue::Hundreds => 2,
            PlaceValue::Tens => 1,
            PlaceValue::Ones => 0,
            PlaceValue::Tenths => -1,
            PlaceValue::Hundredths => -2,
            PlaceValue::Thousandths => -3,
            PlaceValue::TenThousandths => -4,
            PlaceValue::HundredThousandths => -5,
            PlaceValue::Millionths => -6,
        }
    }

    /// The place whose power of ten is `n`, if there is one.
    pub fn from_exponent(n: i32) -> (r: Option<PlaceValue>)
        ensures
            r matches Some(p) ==> place_exponent(p) == n,
            r is None <==> (n < -6 || n > 6),
    {
        if n == 6 {
            Some(PlaceValue::Millions)
        } else if n == 5 {
            Some(PlaceValue::HundredThousands)
        } else if n == 4 {
            Some(PlaceValue::TenThousands)
        } else if n == 3 {
            Some(PlaceValue::Thousands)
        } else if n == 2 {
            Some(PlaceValue::Hundreds)
        } else if n == 1 {
            Some(PlaceValue::Tens)
        } else if n == 0 {
            Some(PlaceValue::Ones)
        } else if n == -1 {
            Some(PlaceValue::Tenths)
        } else if n == -2 {
            Some(PlaceValue::Hundredths)
        } else if n == -3 {
            Some(PlaceValue::Thousandths)
        } else if n == -4 {
            Some(PlaceValue::TenThousandths)
        } else if n == -5 {
            Some(PlaceValue::HundredThousandths)
        } else if n == -6 {
            Some(PlaceValue::Millionths)
        } else {
            None
        }
    }
}

impl From<PlaceValue> for i32 {
    fn from(p: PlaceValue) -> (r: i32) {
        p.exponent()
    }
}

impl vstd::std_specs::convert::FromSpecImpl<PlaceValue> for i32 {
    open spec fn obeys_from_spec() -> bool {
        true
    }

    open spec fn from_spec(p: PlaceValue) -> i32 {
        place_exponent(p) as i32
    }
}

/// Greatest common factor of two integers (`gcf(a, 0) == a`).
pub fn gcf(a: u32, b: u32) -> (r: u32)
    ensures
        r == gcd(a as nat, b as nat),
        (a > 0 || b > 0) ==> r > 0 && a % r == 0 && b % r == 0,
    decreases b,
{
    proof {
        lemma_gcd_divides(a as nat, b as nat);
    }
    if b == 0 {
        a
    } else {
        gcf(b, a % b)
    }
}

/// Least common multiple of two integers, not both zero, whose result fits.
pub fn lcm(a: u32, b: u32) -> (r: u32)
    requires
        a > 0 || b > 0,
        (a as nat / gcd(a as nat, b as nat)) * b as nat <= u32::MAX,
    ensures
        r == (a as nat / gcd(a as nat, b as nat)) * b as nat,
        a > 0 && b > 0 ==> r == lcm_spec(a as nat, b as nat) && r % a == 0 && r % b == 0,
{
    proof {
        if a > 0 && b > 0 {
            lemma_lcm_multiple(a as nat, b as nat);
        }
    }
    let g = gcf(a, b);
    (a / g) * b
}

/// An arithmetic operation between two numbers.
#[derive(Debug, Clone, Copy, PartialEq, Eq, Structural, Hash)]
pub enum Operation {
    Multiplication,
    Division,
    Addition,
    Subtraction,
}

impl Operation {
    /// The symbol that writes the operation.
    pub fn as_symbol(&self) -> (c: char)
        ensures
            c == match *self {
                Operation::Multiplication => '*',
                Operation::Division => '/',
                Operation::Addition => '+',
                Operation::Subtraction => '-',
            },
    {
        match self {
            Operation::Multiplication => '*',
            Operation::Division => '/',
            Operation::Addition => '+',
            Operation::Subtraction => '-',
        }
    }
}

pub open spec fn pow10(k: nat) -> nat
    decreases k,
{
    if k == 0 {
        1
    } else {
        10 * pow10((k - 1) as nat)
    }
}

/// `n` rounded to a multiple of `10^k`, halves away from zero.
pub open spec fn round_nat(n: nat, k: nat) -> nat {
    if k == 0 {
        n
    } else {
        ((n + 5 * pow10((k - 1) as nat)) / pow10(k)) * pow10(k)
    }
}

/// An integer rounded at a place; places below the ones leave it as it is.
pub open spec fn round_int(num: int, place: PlaceValue) -> int {
    if place_exponent(place) <= 0 {
        num
    } else if num < 0 {
        -round_nat((-num) as nat, place_exponent(place) as nat)
    } else {
        round_nat(num as nat, place_exponent(place) as nat) as int
    }
}

proof fn lemma_pow10_small()
    ensures
        pow10(0) == 1,
        pow10(1) == 10,
        pow10(2) == 100,
        pow10(3) == 1000,
        pow10(4) == 10000,
        pow10(5) == 100000,
        pow10(6) == 1000000,
        pow10(7) == 10000000,
{
    reveal_with_fuel(pow10, 8);
}

/// Ten to a power of at most seven.
pub fn pow10_u64(k: u32) -> (r: u64)
    requires
        k <= 7,
    ensures
        r == pow10(k as nat),
        1 <= r <= 10000000,
{
    proof {
        lemma_pow10_small();
    }
    if k == 0 {
        1
    } else if k == 1 {
        10
    } else if k == 2 {
        100
    } else if k == 3 {
        1000
    } else if k == 4 {
        10000
    } else if k == 5 {
        100000
    } else if k == 6 {
        1000000
    } else {
        10000000
    }
}

/// Rounds an integer at a place, halves away from zero; places below the ones
/// leave it unchanged.
pub fn round_i64(num: i64, place_value: PlaceValue) -> (r: i64)
    requires
        i64::MIN <= round_int(num as int, place_value) <= i64::MAX,
    ensures
        r == round_int(num as int, place_value),
{
    let e = place_value.exponent();
    if e <= 0 {
        return num;
    }
    let f = pow10_u64(e as u32);
    let half = pow10_u64((e - 1) as u32) * 5;
    let mag: u64 = if num < 0 {
        (-(num as i128)) as u64
    } else {
        num as u64
    };
    let rounded: u128 = ((mag as u128 + half as u128) / f as u128) * f as u128;
    proof {
        assert(((mag as int + half as int) / f as int) * f as int <= mag as int + half as int) by (nonlinear_arith)
            requires f > 0, mag as int + half as int >= 0;
    }
    if num < 0 {
        (-(rounded as i128)) as i64
    } else {
        rounded as i64
    }
}

/// Rounds an integer at a place, halves away from zero; places below the ones
/// leave it unchanged.
pub fn round_i32(num: i32, place_value: PlaceValue) -> (r: i32)
    requires
        i32::MIN <= round_int(num as int, place_value) <= i32::MAX,
    ensures
        r == round_int(num as int, place_value),
{
    round_i64(num as i64, place_value) as i32
}

/// Powers of ten grow with the exponent.
pub proof fn lemma_pow10_monotone(i: nat, j: nat)
    requires
        i <= j,
    ensures
        1 <= pow10(i) <= pow10(j),
    decreases j,
{
    if i < j {
        lemma_pow10_monotone(i, (j - 1) as nat);
    } else {
        lemma_pow10_positive(i);
    }
}

proof fn lemma_pow10_positive(i: nat)
    ensures
        pow10(i) >= 1,
    decreases i,
{
    if i > 0 {
        lemma_pow10_positive((i - 1) as nat);
    }
}

/// Ten to a power of at most nine.
pub fn pow10_u32(k: u32) -> (r: u32)
    requires
        k <= 9,
    ensures
        r == pow10(k as nat),
        r >= 1,
{
    let mut r: u32 = 1;
    let mut i: u32 = 0;
    while i < k
        invariant
            i <= k <= 9,
            r == pow10(i as nat),
        decreases k - i,
    {
        proof {
            lemma_pow10_monotone(i as nat + 1, 9);
            reveal_with_fuel(pow10, 10);
        }
        r = r * 10;
        i = i + 1;
    }
    proof {
        lemma_pow10_monotone(0, k as nat);
    }
    r
}

/// The letters that name variables.
pub const VARIABLES: &'static str = "abcdefghijkmnpqrstuvwxyz";

/// Reads an expression: values (numbers or bracketed groups) joined by
/// operators, a group directly after a value multiplying it.  Texts nested
/// deeper than `MAX_NESTING` are refused.
pub fn parse_expression(s: &str) -> (r: Result<Expression>)
    ensures
        nesting(s@) > MAX_NESTING ==> r == Err::<Expression, Error>(Error::ParseExpression),
        nesting(s@) <= MAX_NESTING ==> match expr_spec(s@) {
            None => r == Err::<Expression, Error>(Error::ParseExpression),
            Some(t) => r matches Ok(e) && e@ == t && e.wf(),
        },
{
    let v = chars_of(s);
    let len = v.len();
    proof {
        assert(window(v@, 0, len) =~= s@);
    }
    if nesting_in(&v, 0, len) > MAX_NESTING {
        return Err(Error::ParseExpression);
    }
    parse_expression_in(&v, 0, len)
}

impl Error {
    /// The error's name as text.
    pub fn as_str(&self) -> (r: String)
        ensures
            r@ == match *self {
                Error::ParseRationalExpression => "ParseRationalExpressionError"@,
                Error::ParseExpression => "ParseExpressionError"@,
                Error::NotInteger => "NotIntegerError"@,
                Error::DivisionByZero => "DivisionByZeroError"@,
                Error::Overflow => "OverflowError"@,
            },
    {
        let s = match self {
            Error::ParseRationalExpression => "ParseRationalExpressionError",
            Error::ParseExpression => "ParseExpressionError",
            Error::NotInteger => "NotIntegerError",
            Error::DivisionByZero => "DivisionByZeroError",
            Error::Overflow => "OverflowError",
        };
        String::from_str(s)
    }
}

/// Writing a number so that it can follow an operator.
pub trait WrapNumber: Sized {
    /// Whether the value can be written.
    spec fn writable(&self) -> bool;

    /// The text that `wrap_if_neg` gives.
    spec fn wrapped(&self) -> Seq<char>;

    /// The number's text, in parentheses when it is negative.
    fn wrap_if_neg(self) -> (r: String)
        requires
            self.writable(),
        ensures
            r@ == self.wrapped(),
    ;
}

impl WrapNumber for RationalNumber {
    open spec fn writable(&self) -> bool {
        self.wf()
    }

    open spec fn wrapped(&self) -> Seq<char> {
        let text = as_str_spec(*self, self.format);
        if self.negative {
            seq!['('] + text + seq![')']
        } else {
            text
        }
    }

    fn wrap_if_neg(self) -> (r: String) {
        let text = self.as_str(None);
        if self.negative {
            let mut s = String::new();
            s.push('(');
            digits::push_all(&mut s, text.as_str());
            s.push(')');
            proof {
                assert(s@ =~= seq!['('] + text@ + seq![')']);
            }
            s
        } else {
            text
        }
    }
}

} // verus!
