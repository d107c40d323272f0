//! Reading rational numbers: mixed numbers, fractions and decimals, and the
//! round trip from text to number and back.
use vstd::prelude::*;

use crate::digits::{digit_value, digits_value, is_digit, lemma_nat_str, nat_str};
use crate::number_text::{as_str_spec, fraction_str, mixed_str, sign_str};
use crate::number_theory::{gcd, lemma_gcd_divides};
use crate::rational_number::{lemma_u32_product, NumberDisplayFormat, RationalNumber};
use crate::scan::{
    chars_of, digits_to_u32, lemma_digit_not_space, lemma_skip_digits, lemma_skip_digits_to,
    lemma_skip_spaces_at, skip_digits, skip_digits_in, skip_spaces, skip_spaces_in, window,
};
use crate::{gcf, pow10, Error, Result};
use vstd::arithmetic::div_mod::lemma_fundamental_div_mod_converse;

verus! {

/// After leading space, an optional sign and more space: whether the sign is a
/// minus, and where the number proper starts.
pub open spec fn sign_part(t: Seq<char>) -> (bool, nat) {
    let i0 = skip_spaces(t, 0);
    let signed = i0 < t.len() && (t[i0 as int] == '+' || t[i0 as int] == '-');
    let neg = i0 < t.len() && t[i0 as int] == '-';
    let i1 = if signed {
        i0 + 1
    } else {
        i0
    };
    (neg, skip_spaces(t, i1))
}

/// `[sign] whole space+ numerator / denominator`, spaces allowed around tokens:
/// the sign and the three digit runs.
pub open spec fn mixed_parts(t: Seq<char>) -> Option<(bool, Seq<char>, Seq<char>, Seq<char>)> {
    let (neg, i2) = sign_part(t);
    let i3 = skip_digits(t, i2);
    let i4 = skip_spaces(t, i3);
    let i5 = skip_digits(t, i4);
    let i6 = skip_spaces(t, i5);
    let i7 = skip_spaces(t, i6 + 1);
    let i8 = skip_digits(t, i7);
    if i3 > i2 && i4 > i3 && i5 > i4 && i6 < t.len() && t[i6 as int] == '/' && i8 > i7
        && skip_spaces(t, i8) == t.len() {
        Some((neg, t.subrange(i2 as int, i3 as int), t.subrange(i4 as int, i5 as int), t.subrange(i7 as int, i8 as int)))
    } else {
        None
    }
}

/// `[sign] numerator / denominator`, spaces allowed around tokens.
pub open spec fn fraction_parts(t: Seq<char>) -> Option<(bool, Seq<char>, Seq<char>)> {
    let (neg, i2) = sign_part(t);
    let i3 = skip_digits(t, i2);
    let i4 = skip_spaces(t, i3);
    let i5 = skip_spaces(t, i4 + 1);
    let i6 = skip_digits(t, i5);
    if i3 > i2 && i4 < t.len() && t[i4 as int] == '/' && i6 > i5 && skip_spaces(t, i6) == t.len() {
        Some((neg, t.subrange(i2 as int, i3 as int), t.subrange(i5 as int, i6 as int)))
    } else {
        None
    }
}

/// `[sign] digits [. digits]` or `[sign] . digits`, spaces allowed around:
/// the sign, the whole digits and the fractional digits.
pub open spec fn decimal_parts(t: Seq<char>) -> Option<(bool, Seq<char>, Seq<char>)> {
    let (neg, i2) = sign_part(t);
    let i3 = skip_digits(t, i2);
    let i4 = if i3 < t.len() && t[i3 as int] == '.' {
        i3 + 1
    } else {
        i3
    };
    let i5 = skip_digits(t, i4);
    let j3 = skip_digits(t, i2 + 1);
    if i3 > i2 && skip_spaces(t, i5) == t.len() {
        Some((neg, t.subrange(i2 as int, i3 as int), t.subrange(i4 as int, i5 as int)))
    } else if i2 < t.len() && t[i2 as int] == '.' && j3 > i2 + 1 && skip_spaces(t, j3) == t.len() {
        Some((neg, Seq::empty(), t.subrange(i2 + 1 as int, j3 as int)))
    } else {
        None
    }
}

/// The number `w n/d`; zero is read as non-negative.
pub open spec fn mixed_value(neg: bool, w: nat, n: nat, d: nat) -> Result<RationalNumber> {
    if w > u32::MAX || n > u32::MAX || d > u32::MAX {
        Err(Error::Overflow)
    } else if d == 0 {
        Err(Error::DivisionByZero)
    } else if d * w + n > u32::MAX {
        Err(Error::Overflow)
    } else {
        Ok(
            RationalNumber {
                numerator: (d * w + n) as u32,
                denominator: d as u32,
                negative: neg && d * w + n != 0,
                format: NumberDisplayFormat::Mixed,
            },
        )
    }
}

/// The number `n/d`; zero is read as non-negative.
pub open spec fn fraction_value(neg: bool, n: nat, d: nat) -> Result<RationalNumber> {
    if n > u32::MAX || d > u32::MAX {
        Err(Error::Overflow)
    } else if d == 0 {
        Err(Error::DivisionByZero)
    } else {
        Ok(
            RationalNumber {
                numerator: n as u32,
                denominator: d as u32,
                negative: neg && n != 0,
                format: if n >= d {
                    NumberDisplayFormat::Fraction
                } else {
                    NumberDisplayFormat::Mixed
                },
            },
        )
    }
}

/// `w.f` where `f` has `k` digits: `f / 10^k` in lowest terms, plus `w`;
/// zero is read as non-negative.
pub open spec fn decimal_value(neg: bool, w: nat, f: nat, k: nat) -> Result<RationalNumber> {
    let g = gcd(f, pow10(k));
    let rem = f / g;
    let den = pow10(k) / g;
    if w > u32::MAX || k > 9 {
        Err(Error::Overflow)
    } else if den * w + rem > u32::MAX {
        Err(Error::Overflow)
    } else {
        Ok(
            RationalNumber {
                numerator: (den * w + rem) as u32,
                denominator: den as u32,
                negative: neg && den * w + rem != 0,
                format: NumberDisplayFormat::Decimal(None),
            },
        )
    }
}

/// The number a text denotes: a mixed number, else a fraction, else a decimal.
pub open spec fn parse_spec(t: Seq<char>) -> Result<RationalNumber> {
    match mixed_parts(t) {
        Some((neg, w, n, d)) => mixed_value(neg, digits_value(w), digits_value(n), digits_value(d)),
        None => match fraction_parts(t) {
            Some((neg, n, d)) => fraction_value(neg, digits_value(n), digits_value(d)),
            None => match decimal_parts(t) {
                Some((neg, w, f)) => decimal_value(neg, digits_value(w), digits_value(f), f.len()),
                None => Err(Error::ParseRationalExpression),
            },
        },
    }
}

proof fn lemma_digits_below_pow10(s: Seq<char>)
    requires
        forall|k: int| 0 <= k < s.len() ==> is_digit(#[trigger] s[k]),
    ensures
        digits_value(s) < pow10(s.len()),
    decreases s.len(),
{
    if s.len() > 0 {
        let p = s.drop_last();
        assert forall|k: int| 0 <= k < p.len() implies is_digit(#[trigger] p[k]) by {
            assert(p[k] == s[k]);
        }
        lemma_digits_below_pow10(p);
        assert(is_digit(s.last()));
        assert(digits_value(s) < pow10(s.len())) by (nonlinear_arith)
            requires
                digits_value(s) == digits_value(p) * 10 + digit_value(s.last()),
                digit_value(s.last()) < 10,
                digits_value(p) < pow10(p.len()),
                pow10(s.len()) == 10 * pow10(p.len()),
        ;
    }
}

impl RationalNumber {
    /// Reads a mixed number (`-2 1/3`), a fraction (`7/5`) or a decimal (`3.14`,
    /// `.5`), in that order of preference.
    pub fn parse(s: &str) -> (r: Result<RationalNumber>)
        ensures
            r == parse_spec(s@),
            r matches Ok(v) ==> v.wf(),
    {
        let v = chars_of(s);
        let len = v.len();
        proof {
            assert(window(v@, 0, len) =~= s@);
        }
        parse_window(&v, 0, len)
    }
}

/// Reads the number that the characters of `v` from `a` up to `b` write.
pub fn parse_window(v: &Vec<char>, a: usize, b: usize) -> (r: Result<RationalNumber>)
    requires
        a <= b <= v@.len(),
    ensures
        r == parse_spec(window(v@, a, b)),
        r matches Ok(x) ==> x.wf(),
{
    if let Some(r) = mixed_in(v, a, b) {
        return r;
    }
    if let Some(r) = fraction_in(v, a, b) {
        return r;
    }
    if let Some(r) = decimal_in(v, a, b) {
        return r;
    }
    Err(Error::ParseRationalExpression)
}

fn sign_in(v: &Vec<char>, a: usize, b: usize) -> (r: (bool, usize))
    requires
        a <= b <= v@.len(),
    ensures
        sign_part(window(v@, a, b)) == (r.0, r.1 as nat),
        r.1 <= b - a,
{
    let len = b - a;
    let i0 = skip_spaces_in(v, a, b, 0);
    let signed = i0 < len && (v[a + i0] == '+' || v[a + i0] == '-');
    let neg = i0 < len && v[a + i0] == '-';
    let i1 = if signed { i0 + 1 } else { i0 };
    let i2 = skip_spaces_in(v, a, b, i1);
    (neg, i2)
}

fn mixed_in(v: &Vec<char>, a: usize, b: usize) -> (r: Option<Result<RationalNumber>>)
    requires
        a <= b <= v@.len(),
    ensures
        match mixed_parts(window(v@, a, b)) {
            Some((neg, w, n, d)) => r == Some(
                mixed_value(neg, digits_value(w), digits_value(n), digits_value(d)),
            ),
            None => r is None,
        },
        r matches Some(Ok(x)) ==> x.wf(),
{
    let ghost t = window(v@, a, b);
    let len = b - a;
    let (neg, i2) = sign_in(v, a, b);
    let i3 = skip_digits_in(v, a, b, i2);
    let i4 = skip_spaces_in(v, a, b, i3);
    let i5 = skip_digits_in(v, a, b, i4);
    let i6 = skip_spaces_in(v, a, b, i5);
    if !(i6 < len && v[a + i6] == '/') {
        return None;
    }
    let i7 = skip_spaces_in(v, a, b, i6 + 1);
    let i8 = skip_digits_in(v, a, b, i7);
    let i9 = skip_spaces_in(v, a, b, i8);
    if !(i3 > i2 && i4 > i3 && i5 > i4 && i8 > i7 && i9 == len) {
        return None;
    }
    proof {
        lemma_skip_digits(t, i2 as nat);
        lemma_skip_digits(t, i4 as nat);
        lemma_skip_digits(t, i7 as nat);
        lemma_window_digits(v@, a, b, i2 as nat, i3 as nat);
        lemma_window_digits(v@, a, b, i4 as nat, i5 as nat);
        lemma_window_digits(v@, a, b, i7 as nat, i8 as nat);
        assert(v@.subrange(a + i2, a + i3) =~= t.subrange(i2 as int, i3 as int));
        assert(v@.subrange(a + i4, a + i5) =~= t.subrange(i4 as int, i5 as int));
        assert(v@.subrange(a + i7, a + i8) =~= t.subrange(i7 as int, i8 as int));
    }
    let w = digits_to_u32(v, a + i2, a + i3);
    let n = digits_to_u32(v, a + i4, a + i5);
    let d = digits_to_u32(v, a + i7, a + i8);
    match (w, n, d) {
        (Some(w), Some(n), Some(d)) => {
            if d == 0 {
                Some(Err(Error::DivisionByZero))
            } else {
                proof {
                    lemma_u32_product(d as nat, w as nat);
                }
                let num: u64 = d as u64 * w as u64 + n as u64;
                if num > u32::MAX as u64 {
                    Some(Err(Error::Overflow))
                } else {
                    Some(
                        Ok(
                            RationalNumber {
                                numerator: num as u32,
                                denominator: d,
                                negative: neg && num != 0,
                                format: NumberDisplayFormat::Mixed,
                            },
                        ),
                    )
                }
            }
        },
        _ => Some(Err(Error::Overflow)),
    }
}

fn fraction_in(v: &Vec<char>, a: usize, b: usize) -> (r: Option<Result<RationalNumber>>)
    requires
        a <= b <= v@.len(),
    ensures
        match fraction_parts(window(v@, a, b)) {
            Some((neg, n, d)) => r == Some(fraction_value(neg, digits_value(n), digits_value(d))),
            None => r is None,
        },
        r matches Some(Ok(x)) ==> x.wf(),
{
    let ghost t = window(v@, a, b);
    let len = b - a;
    let (neg, i2) = sign_in(v, a, b);
    let i3 = skip_digits_in(v, a, b, i2);
    let i4 = skip_spaces_in(v, a, b, i3);
    if !(i4 < len && v[a + i4] == '/') {
        return None;
    }
    let i5 = skip_spaces_in(v, a, b, i4 + 1);
    let i6 = skip_digits_in(v, a, b, i5);
    let i7 = skip_spaces_in(v, a, b, i6);
    if !(i3 > i2 && i6 > i5 && i7 == len) {
        return None;
    }
    proof {
        lemma_skip_digits(t, i2 as nat);
        lemma_skip_digits(t, i5 as nat);
        lemma_window_digits(v@, a, b, i2 as nat, i3 as nat);
        lemma_window_digits(v@, a, b, i5 as nat, i6 as nat);
        assert(v@.subrange(a + i2, a + i3) =~= t.subrange(i2 as int, i3 as int));
        assert(v@.subrange(a + i5, a + i6) =~= t.subrange(i5 as int, i6 as int));
    }
    let n = digits_to_u32(v, a + i2, a + i3);
    let d = digits_to_u32(v, a + i5, a + i6);
    match (n, d) {
        (Some(n), Some(d)) => {
            if d == 0 {
                Some(Err(Error::DivisionByZero))
            } else {
                let format = if n >= d {
                    NumberDisplayFormat::Fraction
                } else {
                    NumberDisplayFormat::Mixed
                };
                Some(Ok(RationalNumber { numerator: n, denominator: d, negative: neg && n != 0, format }))
            }
        },
        _ => Some(Err(Error::Overflow)),
    }
}

fn decimal_in(v: &Vec<char>, a: usize, b: usize) -> (r: Option<Result<RationalNumber>>)
    requires
        a <= b <= v@.len(),
    ensures
        match decimal_parts(window(v@, a, b)) {
            Some((neg, w, f)) => r == Some(
                decimal_value(neg, digits_value(w), digits_value(f), f.len()),
            ),
            None => r is None,
        },
        r matches Some(Ok(x)) ==> x.wf(),
{
    let ghost t = window(v@, a, b);
    let len = b - a;
    let (neg, i2) = sign_in(v, a, b);
    let i3 = skip_digits_in(v, a, b, i2);
    let i4 = if i3 < len && v[a + i3] == '.' { i3 + 1 } else { i3 };
    let i5 = skip_digits_in(v, a, b, i4);
    let i6 = skip_spaces_in(v, a, b, i5);
    if i3 > i2 && i6 == len {
        proof {
            lemma_skip_digits(t, i2 as nat);
            lemma_skip_digits(t, i4 as nat);
            lemma_window_digits(v@, a, b, i2 as nat, i3 as nat);
            lemma_window_digits(v@, a, b, i4 as nat, i5 as nat);
            assert(v@.subrange(a + i2, a + i3) =~= t.subrange(i2 as int, i3 as int));
            assert(v@.subrange(a + i4, a + i5) =~= t.subrange(i4 as int, i5 as int));
        }
        return Some(parse_decimal(v, neg, a + i2, a + i3, a + i4, a + i5));
    }
    if i2 < len && v[a + i2] == '.' {
        let j3 = skip_digits_in(v, a, b, i2 + 1);
        let j4 = skip_spaces_in(v, a, b, j3);
        if j3 > i2 + 1 && j4 == len {
            proof {
                lemma_skip_digits(t, i2 as nat + 1);
                lemma_window_digits(v@, a, b, i2 as nat + 1, j3 as nat);
                assert(v@.subrange(a + i2 + 1, a + j3) =~= t.subrange(i2 + 1, j3 as int));
                assert(v@.subrange(a + i2, a + i2) =~= Seq::<char>::empty());
            }
            return Some(parse_decimal(v, neg, a + i2, a + i2, a + i2 + 1, a + j3));
        }
    }
    None
}

proof fn lemma_window_digits(v: Seq<char>, a: usize, b: usize, i: nat, j: nat)
    requires
        a <= b <= v.len(),
        i <= j <= b - a,
        forall|k: int| i <= k < j ==> is_digit(#[trigger] window(v, a, b)[k]),
    ensures
        forall|k: int| a + i <= k < a + j ==> is_digit(#[trigger] v[k]),
{
    assert forall|k: int| a + i <= k < a + j implies is_digit(#[trigger] v[k]) by {
        assert(window(v, a, b)[k - a] == v[k]);
    }
}

/// The decimal whose whole digits stand in `v` from `wa` to `wb` and whose
/// fractional digits stand from `fa` to `fb`.
fn parse_decimal(v: &Vec<char>, neg: bool, wa: usize, wb: usize, fa: usize, fb: usize) -> (r:
    Result<RationalNumber>)
    requires
        wa <= wb <= v@.len(),
        fa <= fb <= v@.len(),
        forall|k: int| wa <= k < wb ==> is_digit(#[trigger] v@[k]),
        forall|k: int| fa <= k < fb ==> is_digit(#[trigger] v@[k]),
    ensures
        r == decimal_value(
            neg,
            digits_value(v@.subrange(wa as int, wb as int)),
            digits_value(v@.subrange(fa as int, fb as int)),
            (fb - fa) as nat,
        ),
        r matches Ok(x) ==> x.wf(),
{
    let ghost fs = v@.subrange(fa as int, fb as int);
    let w = digits_to_u32(v, wa, wb);
    let w = match w {
        Some(w) => w,
        None => {
            return Err(Error::Overflow);
        },
    };
    if fb - fa > 9 {
        return Err(Error::Overflow);
    }
    proof {
        assert forall|k: int| 0 <= k < fs.len() implies is_digit(#[trigger] fs[k]) by {
            assert(fs[k] == v@[fa + k]);
        }
        lemma_digits_below_pow10(fs);
        crate::lemma_pow10_monotone((fb - fa) as nat, 9);
        reveal_with_fuel(pow10, 10);
    }
    let f = digits_to_u32(v, fa, fb);
    let f = match f {
        Some(f) => f,
        None => {
            return Err(Error::Overflow);
        },
    };
    let p = crate::pow10_u32((fb - fa) as u32);
    let g = gcf(f, p);
    let rem = f / g;
    let den = p / g;
    proof {
        lemma_u32_product(den as nat, w as nat);
        lemma_gcd_divides(f as nat, p as nat);
        assert(den > 0) by (nonlinear_arith)
            requires den == p as int / g as int, p % g == 0, g > 0, p > 0;
    }
    let num: u64 = den as u64 * w as u64 + rem as u64;
    if num > u32::MAX as u64 {
        return Err(Error::Overflow);
    }
    Ok(
        RationalNumber {
            numerator: num as u32,
            denominator: den,
            negative: neg && num != 0,
            format: NumberDisplayFormat::Decimal(None),
        },
    )
}


/// A fraction written plainly: optional minus, numerator, `/`, denominator.
pub open spec fn fraction_text(negative: bool, n: nat, d: nat) -> Seq<char> {
    sign_str(negative) + nat_str(n) + seq!['/'] + nat_str(d)
}

/// A mixed number written plainly: optional minus, whole part, one space,
/// numerator, `/`, denominator.
pub open spec fn mixed_text(negative: bool, w: nat, n: nat, d: nat) -> Seq<char> {
    sign_str(negative) + nat_str(w) + seq![' '] + nat_str(n) + seq!['/'] + nat_str(d)
}

proof fn lemma_sign_part_plain(t: Seq<char>, negative: bool, rest: Seq<char>)
    requires
        t == sign_str(negative) + rest,
        rest.len() > 0,
        is_digit(rest[0]),
    ensures
        sign_part(t) == (negative, sign_str(negative).len()),
{
    lemma_digit_not_space(rest[0]);
    if negative {
        assert(t[0] == '-');
        lemma_skip_spaces_at(t, 0);
        assert(t[1] == rest[0]);
        lemma_skip_spaces_at(t, 1);
    } else {
        assert(t[0] == rest[0]);
        lemma_skip_spaces_at(t, 0);
    }
}

/// A plain fraction with a non-zero numerator reads back to itself in the
/// format it was read with (and as a fraction).
pub proof fn lemma_fraction_round_trip(negative: bool, n: nat, d: nat)
    requires
        1 <= n <= u32::MAX,
        1 <= d <= u32::MAX,
    ensures
        parse_spec(fraction_text(negative, n, d)) is Ok,
        parse_spec(fraction_text(negative, n, d))->Ok_0.numerator == n,
        parse_spec(fraction_text(negative, n, d))->Ok_0.denominator == d,
        parse_spec(fraction_text(negative, n, d))->Ok_0.negative == negative,
        as_str_spec(
            parse_spec(fraction_text(negative, n, d))->Ok_0,
            parse_spec(fraction_text(negative, n, d))->Ok_0.format,
        ) == fraction_text(negative, n, d),
        as_str_spec(parse_spec(fraction_text(negative, n, d))->Ok_0, NumberDisplayFormat::Fraction)
            == fraction_text(negative, n, d),
{
    let t = fraction_text(negative, n, d);
    let sg = sign_str(negative);
    let ns = nat_str(n);
    let ds = nat_str(d);
    lemma_nat_str(n);
    lemma_nat_str(d);
    let s = sg.len();
    let slash = s + ns.len();
    assert(t.len() == slash + 1 + ds.len());
    assert forall|k: int| 0 <= k < ns.len() implies t[s + k] == ns[k] by {}
    assert forall|k: int| 0 <= k < ds.len() implies t[slash + 1 + k] == ds[k] by {}
    assert(t[slash as int] == '/');
    assert(t =~= sg + (ns + seq!['/'] + ds));
    lemma_sign_part_plain(t, negative, ns + seq!['/'] + ds);
    assert forall|k: int| s <= k < slash implies is_digit(#[trigger] t[k]) by {
        assert(t[k] == ns[k - s]);
    }
    lemma_skip_digits_to(t, s, slash);
    lemma_skip_spaces_at(t, slash);
    assert(mixed_parts(t) is None);
    assert(t[slash + 1 as int] == ds[0]);
    lemma_digit_not_space(ds[0]);
    lemma_skip_spaces_at(t, slash + 1);
    assert forall|k: int| slash + 1 <= k < t.len() implies is_digit(#[trigger] t[k]) by {
        assert(t[k] == ds[k - slash - 1]);
    }
    lemma_skip_digits_to(t, slash + 1, t.len());
    lemma_skip_spaces_at(t, t.len());
    assert(t.subrange(s as int, slash as int) =~= ns);
    assert(t.subrange(slash + 1 as int, t.len() as int) =~= ds);
    assert(fraction_parts(t) == Some((negative, ns, ds)));
    let r = parse_spec(t)->Ok_0;
    assert(fraction_str(r) =~= t);
}

/// A plain mixed number with a proper, non-zero fractional part reads back to
/// itself.
pub proof fn lemma_mixed_round_trip(negative: bool, w: nat, n: nat, d: nat)
    requires
        1 <= w,
        1 <= n < d,
        d * w + n <= u32::MAX,
    ensures
        parse_spec(mixed_text(negative, w, n, d)) is Ok,
        parse_spec(mixed_text(negative, w, n, d))->Ok_0.format == NumberDisplayFormat::Mixed,
        as_str_spec(parse_spec(mixed_text(negative, w, n, d))->Ok_0, NumberDisplayFormat::Mixed)
            == mixed_text(negative, w, n, d),
{
    let t = mixed_text(negative, w, n, d);
    let sg = sign_str(negative);
    let ws = nat_str(w);
    let ns = nat_str(n);
    let ds = nat_str(d);
    lemma_nat_str(w);
    lemma_nat_str(n);
    lemma_nat_str(d);
    assert(w <= u32::MAX && d <= u32::MAX) by (nonlinear_arith)
        requires d * w + n <= u32::MAX, w >= 1, d >= 1;
    let s = sg.len();
    let sp = s + ws.len();
    let slash = sp + 1 + ns.len();
    assert(t.len() == slash + 1 + ds.len());
    assert forall|k: int| 0 <= k < ws.len() implies t[s + k] == ws[k] by {}
    assert forall|k: int| 0 <= k < ns.len() implies t[sp + 1 + k] == ns[k] by {}
    assert forall|k: int| 0 <= k < ds.len() implies t[slash + 1 + k] == ds[k] by {}
    assert(t[sp as int] == ' ');
    assert(t[slash as int] == '/');
    assert(t =~= sg + (ws + seq![' '] + ns + seq!['/'] + ds));
    lemma_sign_part_plain(t, negative, ws + seq![' '] + ns + seq!['/'] + ds);
    assert forall|k: int| s <= k < sp implies is_digit(#[trigger] t[k]) by {
        assert(t[k] == ws[k - s]);
    }
    lemma_skip_digits_to(t, s, sp);
    assert(t[sp + 1 as int] == ns[0]);
    lemma_digit_not_space(ns[0]);
    assert(skip_spaces(t, sp) == skip_spaces(t, sp + 1));
    lemma_skip_spaces_at(t, sp + 1);
    assert forall|k: int| sp + 1 <= k < slash implies is_digit(#[trigger] t[k]) by {
        assert(t[k] == ns[k - sp - 1]);
    }
    lemma_skip_digits_to(t, sp + 1, slash);
    lemma_skip_spaces_at(t, slash);
    assert(t[slash + 1 as int] == ds[0]);
    lemma_digit_not_space(ds[0]);
    lemma_skip_spaces_at(t, slash + 1);
    assert forall|k: int| slash + 1 <= k < t.len() implies is_digit(#[trigger] t[k]) by {
        assert(t[k] == ds[k - slash - 1]);
    }
    lemma_skip_digits_to(t, slash + 1, t.len());
    lemma_skip_spaces_at(t, t.len());
    assert(t.subrange(s as int, sp as int) =~= ws);
    assert(t.subrange(sp + 1 as int, slash as int) =~= ns);
    assert(t.subrange(slash + 1 as int, t.len() as int) =~= ds);
    assert(mixed_parts(t) == Some((negative, ws, ns, ds)));
    let r = parse_spec(t)->Ok_0;
    assert(r.numerator == d * w + n);
    assert((d * w + n) / d == w && (d * w + n) % d == n) by {
        assert(d * w + n == w * d + n) by (nonlinear_arith);
        lemma_fundamental_div_mod_converse((d * w + n) as int, d as int, w as int, n as int);
    }
    assert(r.numerator >= r.denominator) by (nonlinear_arith)
        requires r.numerator == d * w + n, r.denominator == d, w >= 1;
    assert(mixed_str(r) =~= t);
}

} // verus!
