//! Exact rational numbers with a sign flag, and their arithmetic.
use vstd::prelude::*;

use crate::number_theory::{
    gcd, lcm_spec, lemma_gcd_divides, lemma_gcd_of_multiple, lemma_gcd_scale, lemma_gcd_sym,
    lemma_lcm_multiple,
};
use crate::{gcf, Error, PlaceValue, Result};
use vstd::arithmetic::div_mod::{lemma_fundamental_div_mod, lemma_fundamental_div_mod_converse};

verus! {

/// How a number is written out.
#[derive(Debug, Clone, Copy, PartialEq, Eq, Structural)]
pub enum NumberDisplayFormat {
    /// Decimal digits, rounded at a place when one is given.
    Decimal(Option<PlaceValue>),
    /// `numerator/denominator`.
    Fraction,
    /// A whole part and a proper fraction.
    Mixed,
}

/// A rational number: magnitude `numerator / denominator`, sign in `negative`.
/// The value is never reduced implicitly; `simplify` does that.
#[derive(Debug, Clone, Copy)]
pub struct RationalNumber {
    pub numerator: u32,
    pub denominator: u32,
    pub negative: bool,
    pub format: NumberDisplayFormat,
}

impl RationalNumber {
    /// A well-formed number has a non-zero denominator, and zero is never
    /// negative.
    pub open spec fn wf(&self) -> bool {
        &&& self.denominator > 0
        &&& (self.numerator == 0 ==> !self.negative)
    }

    /// The numerator with the sign applied.
    pub open spec fn signed_numerator(&self) -> int {
        if self.negative {
            -(self.numerator as int)
        } else {
            self.numerator as int
        }
    }

    /// The number in lowest terms, sign and format kept.
    pub open spec fn simplified(&self) -> RationalNumber {
        let g = gcd(self.numerator as nat, self.denominator as nat);
        RationalNumber {
            numerator: (self.numerator as nat / g) as u32,
            denominator: (self.denominator as nat / g) as u32,
            negative: self.negative,
            format: self.format,
        }
    }

    /// Equality as the library defines it: the reduced sign, numerator and
    /// denominator agree.
    pub open spec fn equals(&self, other: &RationalNumber) -> bool {
        &&& self.simplified().numerator == other.simplified().numerator
        &&& self.simplified().denominator == other.simplified().denominator
        &&& self.negative == other.negative
    }

    /// A number whose value is an integer.
    pub open spec fn is_integral(&self) -> bool {
        self.numerator % self.denominator == 0
    }
}

/// `a` and `b` denote the same rational value.
pub open spec fn same_value(a: RationalNumber, b: RationalNumber) -> bool {
    a.signed_numerator() * b.denominator == b.signed_numerator() * a.denominator
}

/// The format of the result of an operation: the right operand's when the left
/// one is an integer, else the left one's.
pub open spec fn evaluated_format_spec(a: RationalNumber, b: RationalNumber) -> NumberDisplayFormat {
    if a.simplified().denominator == 1 {
        b.format
    } else {
        a.format
    }
}

/// The sign flipped; zero stays non-negative.
pub open spec fn neg_spec(a: RationalNumber) -> RationalNumber {
    RationalNumber { negative: a.numerator != 0 && !a.negative, ..a }
}

/// Sum over the least common denominator; magnitudes add for like signs, else
/// the smaller is taken from the larger and the larger's sign is kept.  A zero
/// sum is non-negative.
pub open spec fn add_spec(a: RationalNumber, b: RationalNumber) -> Result<RationalNumber> {
    let l = lcm_spec(a.denominator as nat, b.denominator as nat);
    let x = a.numerator * (l / a.denominator as nat);
    let y = b.numerator * (l / b.denominator as nat);
    if l > u32::MAX || x > u32::MAX || y > u32::MAX || (a.negative == b.negative && x + y
        > u32::MAX) {
        Err(Error::Overflow)
    } else {
        let n = if a.negative == b.negative {
            x + y
        } else if x > y {
            x - y
        } else {
            y - x
        };
        let neg = if n == 0 {
            false
        } else if a.negative == b.negative {
            a.negative
        } else if x > y {
            a.negative
        } else {
            b.negative
        };
        Ok(
            RationalNumber {
                numerator: n as u32,
                denominator: l as u32,
                negative: neg,
                format: evaluated_format_spec(a, b),
            },
        )
    }
}

pub open spec fn sub_spec(a: RationalNumber, b: RationalNumber) -> Result<RationalNumber> {
    add_spec(a, neg_spec(b))
}

/// Product of numerators over product of denominators, signs combined; a zero
/// product is non-negative.
pub open spec fn mul_spec(a: RationalNumber, b: RationalNumber) -> Result<RationalNumber> {
    if a.numerator * b.numerator > u32::MAX || a.denominator * b.denominator > u32::MAX {
        Err(Error::Overflow)
    } else {
        Ok(
            RationalNumber {
                numerator: (a.numerator * b.numerator) as u32,
                denominator: (a.denominator * b.denominator) as u32,
                negative: a.negative != b.negative && a.numerator * b.numerator != 0,
                format: evaluated_format_spec(a, b),
            },
        )
    }
}

/// Quotient by cross multiplication; a zero divisor is refused, a zero quotient
/// is non-negative.
pub open spec fn div_spec(a: RationalNumber, b: RationalNumber) -> Result<RationalNumber> {
    if b.numerator == 0 {
        Err(Error::DivisionByZero)
    } else if a.numerator * b.denominator > u32::MAX || a.denominator * b.numerator > u32::MAX {
        Err(Error::Overflow)
    } else {
        Ok(
            RationalNumber {
                numerator: (a.numerator * b.denominator) as u32,
                denominator: (a.denominator * b.numerator) as u32,
                negative: a.negative != b.negative && a.numerator * b.denominator != 0,
                format: evaluated_format_spec(a, b),
            },
        )
    }
}

pub open spec fn nat_pow(b: nat, e: nat) -> nat
    decreases e,
{
    if e == 0 {
        1
    } else {
        b * nat_pow(b, (e - 1) as nat)
    }
}

/// Exact power by an integer exponent, of the base in lowest terms; a negative
/// exponent inverts the base.
pub open spec fn pow_spec(a: RationalNumber, e: RationalNumber) -> Result<RationalNumber> {
    let s = a.simplified();
    let k = e.numerator as nat / e.denominator as nat;
    let inverted = e.negative && k > 0;
    let top = if inverted { s.denominator as nat } else { s.numerator as nat };
    let bottom = if inverted { s.numerator as nat } else { s.denominator as nat };
    if !e.is_integral() {
        Err(Error::NotInteger)
    } else if bottom == 0 {
        Err(Error::DivisionByZero)
    } else if nat_pow(top, k) > u32::MAX || nat_pow(bottom, k) > u32::MAX {
        Err(Error::Overflow)
    } else {
        Ok(
            RationalNumber {
                numerator: nat_pow(top, k) as u32,
                denominator: nat_pow(bottom, k) as u32,
                negative: a.negative && k % 2 == 1 && nat_pow(top, k) != 0,
                format: NumberDisplayFormat::Decimal(None),
            },
        )
    }
}

pub(crate) proof fn lemma_simplified(a: RationalNumber)
    requires
        a.wf(),
    ensures
        a.simplified().wf(),
        same_value(a, a.simplified()),
        gcd(a.numerator as nat, a.denominator as nat) > 0,
        a.numerator as nat == a.simplified().numerator * gcd(a.numerator as nat, a.denominator as nat),
        a.denominator as nat == a.simplified().denominator * gcd(a.numerator as nat, a.denominator as nat),
{
    let n = a.numerator as nat;
    let d = a.denominator as nat;
    lemma_gcd_divides(n, d);
    let g = gcd(n, d);
    lemma_fundamental_div_mod(n as int, g as int);
    lemma_fundamental_div_mod(d as int, g as int);
    let p = n / g;
    let q = d / g;
    assert(p <= n && q <= d && q > 0 && n == p * g && d == q * g) by (nonlinear_arith)
        requires
            n == g * p,
            d == g * q,
            g > 0,
            d > 0,
    ;
    assert(n * q == p * d) by (nonlinear_arith)
        requires
            n == g * p,
            d == g * q,
    ;
    assert(-(n as int) * q == -(p as int) * d) by (nonlinear_arith)
        requires
            n * q == p * d,
    ;
    assert(a.simplified().numerator == p);
    assert(a.simplified().denominator == q);
    assert(p == 0 ==> n == 0) by (nonlinear_arith)
        requires n == p * g;
}

/// Numbers that are scaled copies of each other have the same reduced form.
proof fn lemma_simplified_scaled(a: RationalNumber, b: RationalNumber, k: nat)
    requires
        a.wf(),
        k > 0,
        b.numerator == a.numerator * k,
        b.denominator == a.denominator * k,
    ensures
        b.simplified().numerator == a.simplified().numerator,
        b.simplified().denominator == a.simplified().denominator,
{
    let n = a.numerator as nat;
    let d = a.denominator as nat;
    lemma_gcd_scale(n, d, k);
    lemma_gcd_divides(n, d);
    let g = gcd(n, d);
    lemma_fundamental_div_mod(n as int, g as int);
    lemma_fundamental_div_mod(d as int, g as int);
    let p = n / g;
    let q = d / g;
    assert(n * k == (p) * (k * g) && d * k == q * (k * g) && k * g > 0) by (nonlinear_arith)
        requires
            n == g * p,
            d == g * q,
            g > 0,
            k > 0,
    ;
    lemma_fundamental_div_mod_converse((n * k) as int, (k * g) as int, p as int, 0);
    lemma_fundamental_div_mod_converse((d * k) as int, (k * g) as int, q as int, 0);
}

impl RationalNumber {
    /// A number from its parts.
    pub fn new(numerator: u32, denominator: u32, negative: bool, format: NumberDisplayFormat) -> (r:
        RationalNumber)
        ensures
            r == (RationalNumber { numerator, denominator, negative, format }),
    {
        RationalNumber { numerator, denominator, negative, format }
    }

    /// The format this number is written in by default.
    pub fn display_format(&self) -> (r: NumberDisplayFormat)
        ensures
            r == self.format,
    {
        self.format
    }

    /// The same number with another default format.
    pub fn set_display_format(&self, format: NumberDisplayFormat) -> (r: RationalNumber)
        ensures
            r == (RationalNumber { format, ..*self }),
    {
        RationalNumber {
            numerator: self.numerator,
            denominator: self.denominator,
            negative: self.negative,
            format,
        }
    }

    /// The number in lowest terms.
    pub fn simplify(&self) -> (r: RationalNumber)
        requires
            self.wf(),
        ensures
            r == self.simplified(),
            r.wf(),
            same_value(*self, r),
    {
        proof {
            lemma_simplified(*self);
        }
        let g = gcf(self.numerator, self.denominator);
        RationalNumber {
            numerator: self.numerator / g,
            denominator: self.denominator / g,
            negative: self.negative,
            format: self.format,
        }
    }

    /// The number with its sign flipped; zero stays non-negative.
    pub fn neg(&self) -> (r: RationalNumber)
        ensures
            r == neg_spec(*self),
    {
        RationalNumber {
            negative: self.numerator != 0 && !self.negative,
            numerator: self.numerator,
            denominator: self.denominator,
            format: self.format,
        }
    }

    /// The magnitude of the number.
    pub fn abs(&self) -> (r: RationalNumber)
        ensures
            r == (RationalNumber { negative: false, ..*self }),
    {
        RationalNumber {
            negative: false,
            numerator: self.numerator,
            denominator: self.denominator,
            format: self.format,
        }
    }

    /// One over the number; zero has none.
    pub fn reciprocal(&self) -> (r: Result<RationalNumber>)
        ensures
            self.numerator == 0 ==> r == Err::<RationalNumber, Error>(Error::DivisionByZero),
            self.numerator != 0 ==> r == Ok::<RationalNumber, Error>(
                RationalNumber {
                    numerator: self.denominator,
                    denominator: self.numerator,
                    ..*self
                },
            ),
    {
        if self.numerator == 0 {
            return Err(Error::DivisionByZero);
        }
        Ok(
            RationalNumber {
                negative: self.negative,
                numerator: self.denominator,
                denominator: self.numerator,
                format: self.format,
            },
        )
    }

    /// The number as an `i32`, when it is an integer that fits.
    pub fn as_i32(&self) -> (r: Result<i32>)
        requires
            self.wf(),
        ensures
            !self.is_integral() ==> r == Err::<i32, Error>(Error::NotInteger),
            self.is_integral() ==> match r {
                Ok(v) => v as int * self.denominator == self.signed_numerator(),
                Err(e) => e == Error::Overflow && !(i32::MIN <= self.signed_numerator()
                    / (self.denominator as int) <= i32::MAX),
            },
    {
        if self.numerator % self.denominator != 0 {
            return Err(Error::NotInteger);
        }
        let q = self.numerator / self.denominator;
        proof {
            lemma_fundamental_div_mod(self.numerator as int, self.denominator as int);
            assert(-(q as int) * self.denominator == -(self.numerator as int)) by (nonlinear_arith)
                requires
                    self.numerator as int == self.denominator * q,
            ;
            assert((-(q as int) * self.denominator as int) / self.denominator as int == -(q as int))
                by (nonlinear_arith)
                requires
                    self.denominator > 0,
            ;
            assert((q as int * self.denominator as int) / self.denominator as int == q as int)
                by (nonlinear_arith)
                requires
                    self.denominator > 0,
            ;
        }
        if self.negative {
            if q > 2147483648 {
                return Err(Error::Overflow);
            }
            Ok((-(q as i64)) as i32)
        } else {
            if q > 2147483647 {
                return Err(Error::Overflow);
            }
            Ok(q as i32)
        }
    }
}

fn evaluated_format(a: &RationalNumber, b: &RationalNumber) -> (r: NumberDisplayFormat)
    requires
        a.wf(),
    ensures
        r == evaluated_format_spec(*a, *b),
{
    if a.simplify().denominator == 1 {
        b.format
    } else {
        a.format
    }
}


proof fn lemma_add_value(a: RationalNumber, b: RationalNumber)
    requires
        a.wf(),
        b.wf(),
        add_spec(a, b) is Ok,
    ensures
        add_spec(a, b)->Ok_0.wf(),
        add_spec(a, b)->Ok_0.signed_numerator() * (a.denominator * b.denominator) == (
        a.signed_numerator() * b.denominator + b.signed_numerator() * a.denominator)
            * add_spec(a, b)->Ok_0.denominator,
{
    let d1 = a.denominator as nat;
    let d2 = b.denominator as nat;
    lemma_lcm_multiple(d1, d2);
    let l = lcm_spec(d1, d2);
    lemma_fundamental_div_mod(l as int, d1 as int);
    lemma_fundamental_div_mod(l as int, d2 as int);
    let fa = l / d1;
    let fb = l / d2;
    let x = a.numerator * fa;
    let y = b.numerator * fb;
    let sa = a.signed_numerator();
    let sb = b.signed_numerator();
    assert(sa * fa == if a.negative { -x } else { x }) by (nonlinear_arith)
        requires
            sa == if a.negative { -(a.numerator as int) } else { a.numerator as int },
            x == a.numerator * fa,
    ;
    assert(sb * fb == if b.negative { -y } else { y }) by (nonlinear_arith)
        requires
            sb == if b.negative { -(b.numerator as int) } else { b.numerator as int },
            y == b.numerator * fb,
    ;
    let v = add_spec(a, b)->Ok_0;
    let sv = v.signed_numerator();
    assert(sv == sa * fa + sb * fb);
    assert(sa * fa * (d1 * d2) == sa * d2 * l) by (nonlinear_arith)
        requires
            l == d1 * fa,
    ;
    assert(sb * fb * (d1 * d2) == sb * d1 * l) by (nonlinear_arith)
        requires
            l == d2 * fb,
    ;
    assert(sv * (d1 * d2) == sa * fa * (d1 * d2) + sb * fb * (d1 * d2)) by (nonlinear_arith)
        requires
            sv == sa * fa + sb * fb,
    ;
    assert(sv * (d1 * d2) == (sa * d2 + sb * d1) * l) by (nonlinear_arith)
        requires
            sv * (d1 * d2) == sa * d2 * l + sb * d1 * l,
    ;
}

impl RationalNumber {
    /// The exact sum.
    pub fn add(&self, rhs: &RationalNumber) -> (r: Result<RationalNumber>)
        requires
            self.wf(),
            rhs.wf(),
        ensures
            r == add_spec(*self, *rhs),
            r matches Ok(v) ==> v.wf() && v.signed_numerator() * (self.denominator
                * rhs.denominator) == (self.signed_numerator() * rhs.denominator
                + rhs.signed_numerator() * self.denominator) * v.denominator,
    {
        let d1 = self.denominator;
        let d2 = rhs.denominator;
        proof {
            lemma_lcm_multiple(d1 as nat, d2 as nat);
        }
        let g = gcf(d1, d2);
        let q = d1 / g;
        proof {
            assert(q as nat * d2 as nat <= u32::MAX as nat * u32::MAX as nat) by (nonlinear_arith)
                requires
                    q <= u32::MAX,
                    d2 <= u32::MAX,
            ;
        }
        let l: u64 = q as u64 * d2 as u64;
        if l > u32::MAX as u64 {
            return Err(Error::Overflow);
        }
        let fa: u64 = l / d1 as u64;
        let fb: u64 = l / d2 as u64;
        proof {
            assert(fa <= l && fb <= l) by (nonlinear_arith)
                requires
                    fa as int == l as int / d1 as int,
                    fb as int == l as int / d2 as int,
                    d1 > 0,
                    d2 > 0,
                    l >= 0,
            ;
            assert(self.numerator as nat * fa as nat <= u32::MAX as nat * u32::MAX as nat) by (nonlinear_arith)
                requires
                    self.numerator <= u32::MAX,
                    fa <= u32::MAX,
            ;
            assert(rhs.numerator as nat * fb as nat <= u32::MAX as nat * u32::MAX as nat) by (nonlinear_arith)
                requires
                    rhs.numerator <= u32::MAX,
                    fb <= u32::MAX,
            ;
        }
        let x: u64 = self.numerator as u64 * fa;
        let y: u64 = rhs.numerator as u64 * fb;
        if x > u32::MAX as u64 || y > u32::MAX as u64 {
            return Err(Error::Overflow);
        }
        let numerator: u64;
        let negative: bool;
        if self.negative == rhs.negative {
            if x + y > u32::MAX as u64 {
                return Err(Error::Overflow);
            }
            numerator = x + y;
            negative = self.negative;
        } else {
            if x > y {
                numerator = x - y;
                negative = self.negative;
            } else {
                numerator = y - x;
                negative = rhs.negative;
            }
        }
        let negative = negative && numerator != 0;
        let format = evaluated_format(self, rhs);
        proof {
            lemma_add_value(*self, *rhs);
        }
        Ok(RationalNumber { numerator: numerator as u32, denominator: l as u32, negative, format })
    }

    /// The exact difference: the sum with the negated right operand.
    pub fn sub(&self, rhs: &RationalNumber) -> (r: Result<RationalNumber>)
        requires
            self.wf(),
            rhs.wf(),
        ensures
            r == sub_spec(*self, *rhs),
            r matches Ok(v) ==> v.wf() && v.signed_numerator() * (self.denominator
                * rhs.denominator) == (self.signed_numerator() * rhs.denominator
                - rhs.signed_numerator() * self.denominator) * v.denominator,
    {
        proof {
            assert(neg_spec(*rhs).signed_numerator() * self.denominator == -(rhs.signed_numerator()
                * self.denominator)) by (nonlinear_arith)
                requires
                    neg_spec(*rhs).signed_numerator() == -rhs.signed_numerator(),
            ;
        }
        self.add(&rhs.neg())
    }

    /// The exact product.
    pub fn mul(&self, rhs: &RationalNumber) -> (r: Result<RationalNumber>)
        requires
            self.wf(),
            rhs.wf(),
        ensures
            r == mul_spec(*self, *rhs),
            r matches Ok(v) ==> v.wf() && v.signed_numerator() == self.signed_numerator()
                * rhs.signed_numerator(),
    {
        proof {
            lemma_u32_product(self.numerator as nat, rhs.numerator as nat);
            lemma_u32_product(self.numerator as nat, rhs.denominator as nat);
            lemma_u32_product(self.denominator as nat, rhs.numerator as nat);
            lemma_u32_product(self.denominator as nat, rhs.denominator as nat);
        }
        let n: u64 = self.numerator as u64 * rhs.numerator as u64;
        let d: u64 = self.denominator as u64 * rhs.denominator as u64;
        if n > u32::MAX as u64 || d > u32::MAX as u64 {
            return Err(Error::Overflow);
        }
        proof {
            assert(d > 0) by (nonlinear_arith)
                requires
                    d == self.denominator * rhs.denominator,
                    self.denominator > 0,
                    rhs.denominator > 0,
            ;
            let sa = self.signed_numerator();
            let sb = rhs.signed_numerator();
            assert(sa * sb == if self.negative != rhs.negative { -(n as int) } else { n as int })
                by (nonlinear_arith)
                requires
                    sa == if self.negative { -(self.numerator as int) } else { self.numerator as int },
                    sb == if rhs.negative { -(rhs.numerator as int) } else { rhs.numerator as int },
                    n == self.numerator * rhs.numerator,
            ;
        }
        let format = evaluated_format(self, rhs);
        Ok(
            RationalNumber {
                numerator: n as u32,
                denominator: d as u32,
                negative: self.negative != rhs.negative && n != 0,
                format,
            },
        )
    }

    /// The exact quotient; a zero divisor gives `DivisionByZero`.
    pub fn div(&self, rhs: &RationalNumber) -> (r: Result<RationalNumber>)
        requires
            self.wf(),
            rhs.wf(),
        ensures
            r == div_spec(*self, *rhs),
            r matches Ok(v) ==> v.wf(),
    {
        if rhs.numerator == 0 {
            return Err(Error::DivisionByZero);
        }
        proof {
            lemma_u32_product(self.numerator as nat, rhs.numerator as nat);
            lemma_u32_product(self.numerator as nat, rhs.denominator as nat);
            lemma_u32_product(self.denominator as nat, rhs.numerator as nat);
            lemma_u32_product(self.denominator as nat, rhs.denominator as nat);
        }
        let n: u64 = self.numerator as u64 * rhs.denominator as u64;
        let d: u64 = self.denominator as u64 * rhs.numerator as u64;
        if n > u32::MAX as u64 || d > u32::MAX as u64 {
            return Err(Error::Overflow);
        }
        proof {
            assert(d > 0) by (nonlinear_arith)
                requires
                    d == self.denominator * rhs.numerator,
                    self.denominator > 0,
                    rhs.numerator > 0,
            ;
        }
        let format = evaluated_format(self, rhs);
        Ok(
            RationalNumber {
                numerator: n as u32,
                denominator: d as u32,
                negative: self.negative != rhs.negative && n != 0,
                format,
            },
        )
    }

    /// The number raised to an integer power, exactly, the base taken in lowest
    /// terms.  A fractional exponent gives `NotInteger`; zero to a negative
    /// power gives `DivisionByZero`.
    pub fn pow(&self, exp: &RationalNumber) -> (r: Result<RationalNumber>)
        requires
            self.wf(),
            exp.wf(),
        ensures
            r == pow_spec(*self, *exp),
            r matches Ok(v) ==> v.wf(),
    {
        if exp.numerator % exp.denominator != 0 {
            return Err(Error::NotInteger);
        }
        let base = self.simplify();
        let k = exp.numerator / exp.denominator;
        let inverted = exp.negative && k > 0;
        let top: u64 = if inverted { base.denominator as u64 } else { base.numerator as u64 };
        let bottom: u64 = if inverted { base.numerator as u64 } else { base.denominator as u64 };
        if bottom == 0 {
            return Err(Error::DivisionByZero);
        }
        let mut n: u64 = 1;
        let mut d: u64 = 1;
        let mut i: u32 = 0;
        while i < k
            invariant
                i <= k,
                k == exp.numerator / exp.denominator,
                exp.is_integral(),
                inverted == (exp.negative && k > 0),
                base == self.simplified(),
                top == if inverted { base.denominator as u64 } else { base.numerator as u64 },
                bottom == if inverted { base.numerator as u64 } else { base.denominator as u64 },
                top <= u32::MAX,
                bottom <= u32::MAX,
                bottom > 0,
                n == nat_pow(top as nat, i as nat),
                d == nat_pow(bottom as nat, i as nat),
                n <= u32::MAX,
                d <= u32::MAX,
            decreases k - i,
        {
            proof {
                assert(n as nat * top as nat <= u32::MAX as nat * u32::MAX as nat) by (nonlinear_arith)
                    requires n <= u32::MAX, top <= u32::MAX;
                assert(d as nat * bottom as nat <= u32::MAX as nat * u32::MAX as nat) by (nonlinear_arith)
                    requires d <= u32::MAX, bottom <= u32::MAX;
            }
            n = n * top;
            d = d * bottom;
            i = i + 1;
            proof {
                assert(n == top * nat_pow(top as nat, (i - 1) as nat)) by (nonlinear_arith)
                    requires n == nat_pow(top as nat, (i - 1) as nat) * top;
                assert(d == bottom * nat_pow(bottom as nat, (i - 1) as nat)) by (nonlinear_arith)
                    requires d == nat_pow(bottom as nat, (i - 1) as nat) * bottom;
            }
            if n > u32::MAX as u64 || d > u32::MAX as u64 {
                proof {
                    assert(n == nat_pow(top as nat, i as nat));
                    assert(d == nat_pow(bottom as nat, i as nat));
                    lemma_pow_exceeds(top as nat, i as nat, k as nat);
                    lemma_pow_exceeds(bottom as nat, i as nat, k as nat);
                }
                return Err(Error::Overflow);
            }
        }
        proof {
            lemma_pow_positive(bottom as nat, k as nat);
        }
        Ok(
            RationalNumber {
                numerator: n as u32,
                denominator: d as u32,
                negative: self.negative && k % 2 == 1 && n != 0,
                format: NumberDisplayFormat::Decimal(None),
            },
        )
    }
}

pub(crate) proof fn lemma_u32_product(a: nat, b: nat)
    requires
        a <= u32::MAX,
        b <= u32::MAX,
    ensures
        a * b <= 18446744065119617025,
{
    assert(a * b <= u32::MAX as nat * u32::MAX as nat) by (nonlinear_arith)
        requires a <= u32::MAX, b <= u32::MAX;
}

proof fn lemma_pow_positive(b: nat, k: nat)
    requires
        b > 0,
    ensures
        nat_pow(b, k) > 0,
    decreases k,
{
    if k > 0 {
        lemma_pow_positive(b, (k - 1) as nat);
        assert(b * nat_pow(b, (k - 1) as nat) > 0) by (nonlinear_arith)
            requires b > 0, nat_pow(b, (k - 1) as nat) > 0;
    }
}

/// Once a power of `b` passes the 32-bit range, every higher power does too.
proof fn lemma_pow_exceeds(b: nat, i: nat, k: nat)
    requires
        i <= k,
    ensures
        nat_pow(b, i) > u32::MAX ==> nat_pow(b, k) > u32::MAX,
    decreases k - i,
{
    if i < k && nat_pow(b, i) > u32::MAX {
        lemma_pow_exceeds(b, i, (k - 1) as nat);
        let p = nat_pow(b, (k - 1) as nat);
        assert(b >= 1) by {
            if b == 0 {
                assert(nat_pow(0, i) == 0 * nat_pow(0, (i - 1) as nat));
            }
        }
        assert(b * p >= p) by (nonlinear_arith)
            requires b >= 1;
    }
}

impl From<u32> for RationalNumber {
    /// A whole number, written as a decimal.
    fn from(n: u32) -> (r: RationalNumber) {
        RationalNumber {
            numerator: n,
            denominator: 1,
            negative: false,
            format: NumberDisplayFormat::Decimal(None),
        }
    }
}

impl vstd::std_specs::convert::FromSpecImpl<u32> for RationalNumber {
    open spec fn obeys_from_spec() -> bool {
        true
    }

    open spec fn from_spec(n: u32) -> RationalNumber {
        RationalNumber {
            numerator: n,
            denominator: 1,
            negative: false,
            format: NumberDisplayFormat::Decimal(None),
        }
    }
}

impl From<i32> for RationalNumber {
    /// A whole number, written as a decimal; the sign goes to `negative`.
    fn from(n: i32) -> (r: RationalNumber) {
        let magnitude: u32 = if n < 0 {
            (-(n as i64)) as u32
        } else {
            n as u32
        };
        RationalNumber {
            numerator: magnitude,
            denominator: 1,
            negative: n < 0,
            format: NumberDisplayFormat::Decimal(None),
        }
    }
}

impl vstd::std_specs::convert::FromSpecImpl<i32> for RationalNumber {
    open spec fn obeys_from_spec() -> bool {
        true
    }

    open spec fn from_spec(n: i32) -> RationalNumber {
        RationalNumber {
            numerator: (if n < 0 { -n } else { n as int }) as u32,
            denominator: 1,
            negative: n < 0,
            format: NumberDisplayFormat::Decimal(None),
        }
    }
}

/// Equality: both well formed and equal in lowest terms (sign included), or
/// else the same parts.
pub open spec fn eq_rational(a: RationalNumber, b: RationalNumber) -> bool {
    if a.wf() && b.wf() {
        a.equals(&b)
    } else {
        a.numerator == b.numerator && a.denominator == b.denominator && a.negative == b.negative
    }
}

impl PartialEq for RationalNumber {
    fn eq(&self, other: &RationalNumber) -> (r: bool) {
        if self.denominator > 0 && (self.numerator != 0 || !self.negative) && other.denominator > 0
            && (other.numerator != 0 || !other.negative) {
            let a = self.simplify();
            let b = other.simplify();
            a.numerator == b.numerator && a.denominator == b.denominator && a.negative == b.negative
        } else {
            self.numerator == other.numerator && self.denominator == other.denominator
                && self.negative == other.negative
        }
    }
}

impl vstd::std_specs::cmp::PartialEqSpecImpl for RationalNumber {
    open spec fn obeys_eq_spec() -> bool {
        true
    }

    open spec fn eq_spec(&self, other: &RationalNumber) -> bool {
        eq_rational(*self, *other)
    }
}

pub open spec fn int_cmp(x: int, y: int) -> core::cmp::Ordering {
    if x < y {
        core::cmp::Ordering::Less
    } else if x == y {
        core::cmp::Ordering::Equal
    } else {
        core::cmp::Ordering::Greater
    }
}

/// Order: a negative number is below a non-negative one; otherwise the
/// magnitudes are compared over a common denominator, reversed when both are
/// negative.
pub open spec fn cmp_rational(a: RationalNumber, b: RationalNumber) -> core::cmp::Ordering {
    if a.negative && !b.negative {
        core::cmp::Ordering::Less
    } else if !a.negative && b.negative {
        core::cmp::Ordering::Greater
    } else if a.negative {
        int_cmp(b.numerator * a.denominator, a.numerator * b.denominator)
    } else {
        int_cmp(a.numerator * b.denominator, b.numerator * a.denominator)
    }
}

fn cmp_u64(x: u64, y: u64) -> (r: core::cmp::Ordering)
    ensures
        r == int_cmp(x as int, y as int),
{
    if x < y {
        core::cmp::Ordering::Less
    } else if x == y {
        core::cmp::Ordering::Equal
    } else {
        core::cmp::Ordering::Greater
    }
}

impl PartialOrd for RationalNumber {
    fn partial_cmp(&self, other: &RationalNumber) -> (r: Option<core::cmp::Ordering>) {
        proof {
            lemma_u32_product(self.numerator as nat, other.denominator as nat);
            lemma_u32_product(other.numerator as nat, self.denominator as nat);
        }
        let a: u64 = self.numerator as u64 * other.denominator as u64;
        let b: u64 = other.numerator as u64 * self.denominator as u64;
        let ord = if self.negative && !other.negative {
            core::cmp::Ordering::Less
        } else if !self.negative && other.negative {
            core::cmp::Ordering::Greater
        } else if self.negative {
            cmp_u64(b, a)
        } else {
            cmp_u64(a, b)
        };
        Some(ord)
    }
}

impl vstd::std_specs::cmp::PartialOrdSpecImpl for RationalNumber {
    open spec fn obeys_partial_cmp_spec() -> bool {
        true
    }

    open spec fn partial_cmp_spec(&self, other: &RationalNumber) -> Option<core::cmp::Ordering> {
        Some(cmp_rational(*self, *other))
    }
}


/// Every result of the arithmetic on well-formed numbers is well formed.
pub proof fn lemma_results_wf(a: RationalNumber, b: RationalNumber)
    requires
        a.wf(),
        b.wf(),
    ensures
        add_spec(a, b) matches Ok(v) ==> v.wf(),
        sub_spec(a, b) matches Ok(v) ==> v.wf(),
        mul_spec(a, b) matches Ok(v) ==> v.wf(),
        div_spec(a, b) matches Ok(v) ==> v.wf(),
        pow_spec(a, b) matches Ok(v) ==> v.wf(),
{
    if add_spec(a, b) is Ok {
        lemma_add_value(a, b);
    }
    if sub_spec(a, b) is Ok {
        lemma_add_value(a, neg_spec(b));
    }
    assert(a.denominator * b.denominator > 0) by (nonlinear_arith)
        requires a.denominator > 0, b.denominator > 0;
    if b.numerator > 0 {
        assert(a.denominator * b.numerator > 0) by (nonlinear_arith)
            requires a.denominator > 0, b.numerator > 0;
    }
    let k = b.numerator as nat / b.denominator as nat;
    let inverted = b.negative && k > 0;
    lemma_simplified(a);
    let sa = a.simplified();
    let bottom = if inverted { sa.numerator as nat } else { sa.denominator as nat };
    if bottom > 0 {
        lemma_pow_positive(bottom, k);
    }
}


/// Addition commutes: `a + b` and `b + a` both fit or both overflow, and when
/// they fit they are equal and denote the same value.
pub proof fn lemma_add_commutative(a: RationalNumber, b: RationalNumber)
    requires
        a.wf(),
        b.wf(),
    ensures
        add_spec(a, b) is Ok <==> add_spec(b, a) is Ok,
        add_spec(a, b) is Ok ==> eq_rational(add_spec(a, b)->Ok_0, add_spec(b, a)->Ok_0),
        add_spec(a, b) is Ok ==> same_value(add_spec(a, b)->Ok_0, add_spec(b, a)->Ok_0),
{
    let da = a.denominator as nat;
    let db = b.denominator as nat;
    lemma_gcd_sym(da, db);
    lemma_lcm_multiple(da, db);
    lemma_lcm_multiple(db, da);
    assert(lcm_spec(da, db) == lcm_spec(db, da));
    if add_spec(a, b) is Ok {
        lemma_add_value(a, b);
        lemma_add_value(b, a);
        let x = add_spec(a, b)->Ok_0;
        let y = add_spec(b, a)->Ok_0;
        assert(x.denominator == y.denominator);
        assert(x.numerator == y.numerator);
        assert(x.negative == y.negative);
        assert(same_value(x, y)) by (nonlinear_arith)
            requires
                x.denominator == y.denominator,
                x.signed_numerator() == y.signed_numerator(),
                x.signed_numerator() == if x.negative { -(x.numerator as int) } else { x.numerator as int },
                y.signed_numerator() == if y.negative { -(y.numerator as int) } else { y.numerator as int },
        ;
    }
}

/// Multiplication commutes.
pub proof fn lemma_mul_commutative(a: RationalNumber, b: RationalNumber)
    requires
        a.wf(),
        b.wf(),
    ensures
        mul_spec(a, b) is Ok <==> mul_spec(b, a) is Ok,
        mul_spec(a, b) is Ok ==> eq_rational(mul_spec(a, b)->Ok_0, mul_spec(b, a)->Ok_0),
{
    assert(a.numerator * b.numerator == b.numerator * a.numerator);
    assert(a.denominator * b.denominator == b.denominator * a.denominator);
    lemma_results_wf(a, b);
    lemma_results_wf(b, a);
}

/// Subtracting then adding back `b` gives `a` again, when neither step
/// overflows.
pub proof fn lemma_sub_add_cancel(a: RationalNumber, b: RationalNumber)
    requires
        a.wf(),
        b.wf(),
        sub_spec(a, b) is Ok,
        add_spec(sub_spec(a, b)->Ok_0, b) is Ok,
    ensures
        eq_rational(add_spec(sub_spec(a, b)->Ok_0, b)->Ok_0, a),
        same_value(add_spec(sub_spec(a, b)->Ok_0, b)->Ok_0, a),
{
    let da = a.denominator as nat;
    let db = b.denominator as nat;
    lemma_lcm_multiple(da, db);
    let l = lcm_spec(da, db);
    lemma_fundamental_div_mod(l as int, da as int);
    lemma_fundamental_div_mod(l as int, db as int);
    let fa = l / da;
    let fb = l / db;
    let x = a.numerator * fa;
    let y = b.numerator * fb;
    let nb = neg_spec(b);
    let r1 = sub_spec(a, b)->Ok_0;
    assert(r1 == add_spec(a, nb)->Ok_0);
    assert(r1.denominator == l);
    let n1 = if a.negative == nb.negative {
        x + y
    } else if x > y {
        x - y
    } else {
        y - x
    };
    assert(r1.numerator == n1);
    lemma_results_wf(a, b);
    // adding b back works over the same denominator
    lemma_gcd_of_multiple(l, db);
    lemma_lcm_multiple(l, db);
    assert(lcm_spec(l, db) == l) by (nonlinear_arith)
        requires
            lcm_spec(l, db) == (l / gcd(l, db)) * db,
            gcd(l, db) == db,
            l == db * fb,
            db > 0,
            fb == l / db,
    ;
    assert(l / l == 1) by (nonlinear_arith)
        requires l > 0;
    assert(r1.numerator * (l / r1.denominator as nat) == n1);
    let r = add_spec(r1, b)->Ok_0;
    assert(r.denominator == l);
    assert(fa > 0) by (nonlinear_arith)
        requires l == da * fa, l > 0;
    assert(a.numerator == 0 <==> x == 0) by (nonlinear_arith)
        requires x == a.numerator * fa, fa > 0;
    assert(fb > 0) by (nonlinear_arith)
        requires l == db * fb, l > 0;
    assert(b.numerator == 0 <==> y == 0) by (nonlinear_arith)
        requires y == b.numerator * fb, fb > 0, l == db * fb, l > 0;
    assert(r.numerator == x && (x != 0 ==> r.negative == a.negative)) by {
        if a.negative == nb.negative {
            assert(r1.numerator == x + y);
        } else if x > y {
            assert(r1.numerator == x - y);
        } else {
            assert(r1.numerator == y - x);
        }
    }
    assert(r.negative == a.negative);
    lemma_simplified_scaled(a, r, fa);
    lemma_add_value(r1, b);
    lemma_results_wf(r1, b);
    assert(same_value(r, a)) by {
        let sa = a.signed_numerator();
        let sr = r.signed_numerator();
        assert(sr == sa * fa) by (nonlinear_arith)
            requires
                r.negative == a.negative,
                r.numerator == x,
                x == a.numerator * fa,
                sa == if a.negative { -(a.numerator as int) } else { a.numerator as int },
                sr == if r.negative { -(r.numerator as int) } else { r.numerator as int },
        ;
        assert(sr * da == sa * l) by (nonlinear_arith)
            requires
                sr == sa * fa,
                l == da * fa,
        ;
    }
}

/// Dividing by a non-zero `b` then multiplying by `b` gives `a` again, when
/// neither step overflows.
pub proof fn lemma_div_mul_cancel(a: RationalNumber, b: RationalNumber)
    requires
        a.wf(),
        b.wf(),
        b.numerator != 0,
        div_spec(a, b) is Ok,
        mul_spec(div_spec(a, b)->Ok_0, b) is Ok,
    ensures
        eq_rational(mul_spec(div_spec(a, b)->Ok_0, b)->Ok_0, a),
        same_value(mul_spec(div_spec(a, b)->Ok_0, b)->Ok_0, a),
{
    let q = div_spec(a, b)->Ok_0;
    lemma_results_wf(a, b);
    lemma_results_wf(q, b);
    let r = mul_spec(q, b)->Ok_0;
    let k = b.denominator as nat * b.numerator as nat;
    assert(k > 0) by (nonlinear_arith)
        requires b.denominator > 0, b.numerator > 0, k == b.denominator as nat * b.numerator as nat;
    assert(r.numerator == a.numerator * k && r.denominator == a.denominator * k) by (nonlinear_arith)
        requires
            r.numerator == q.numerator * b.numerator,
            r.denominator == q.denominator * b.denominator,
            q.numerator == a.numerator * b.denominator,
            q.denominator == a.denominator * b.numerator,
            k == b.denominator as nat * b.numerator as nat,
    ;
    assert(a.numerator == 0 <==> q.numerator == 0) by (nonlinear_arith)
        requires q.numerator == a.numerator * b.denominator, b.denominator > 0;
    assert(a.numerator * b.denominator != 0 <==> a.numerator != 0) by (nonlinear_arith)
        requires b.denominator > 0;
    assert(q.numerator * b.numerator != 0 <==> q.numerator != 0) by (nonlinear_arith)
        requires b.numerator > 0;
    assert(r.negative == a.negative);
    lemma_simplified_scaled(a, r, k);
    lemma_simplified(a);
    lemma_simplified(r);
    assert(same_value(r, a)) by (nonlinear_arith)
        requires
            r.numerator == a.numerator * k,
            r.denominator == a.denominator * k,
            r.negative == a.negative,
            r.signed_numerator() == if r.negative { -(r.numerator as int) } else { r.numerator as int },
            a.signed_numerator() == if a.negative { -(a.numerator as int) } else { a.numerator as int },
    ;
}


} // verus!
