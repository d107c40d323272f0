//! Writing rational numbers out: decimals by long division (with the
//! repeating block marked), rounded decimals, fractions and mixed numbers.
use vstd::prelude::*;
use vstd::set_lib::{lemma_int_range, lemma_len_subset, lemma_map_size, set_int_range};

use crate::digits::{digit_char, digit_to_char, nat_str, padded_str, push_nat, push_padded};
use crate::rational_number::{NumberDisplayFormat, RationalNumber};
use crate::{place_exponent, pow10, pow10_u64, round_nat, PlaceValue};

verus! {

/// The remainder left after `i` fractional digits of the long division `n / d`.
pub open spec fn rem_at(n: nat, d: nat, i: nat) -> nat
    decreases i,
{
    if i == 0 {
        n % d
    } else {
        (rem_at(n, d, (i - 1) as nat) * 10) % d
    }
}

/// Fractional digits one to `k` of the long division `n / d`.
pub open spec fn frac_digits(n: nat, d: nat, k: nat) -> Seq<char>
    decreases k,
{
    if k == 0 {
        Seq::empty()
    } else {
        frac_digits(n, d, (k - 1) as nat).push(
            digit_char((rem_at(n, d, (k - 1) as nat) * 10) / d),
        )
    }
}

/// The first index from `j` on, below `i`, whose remainder is the one at `i`.
pub open spec fn first_repeat_from(n: nat, d: nat, i: nat, j: nat) -> Option<nat>
    decreases i - j,
{
    if j >= i {
        None
    } else if rem_at(n, d, j) == rem_at(n, d, i) {
        Some(j)
    } else {
        first_repeat_from(n, d, i, j + 1)
    }
}

/// Long division stops after digit `i` when the remainder is zero or seen before.
pub open spec fn stops_at(n: nat, d: nat, i: nat) -> bool {
    rem_at(n, d, i) == 0 || first_repeat_from(n, d, i, 0) is Some
}

/// The first digit from `j` on after which long division stops, looking no
/// further than digit `d` (`lemma_division_stops` shows it stops before).
pub open spec fn stop_from(n: nat, d: nat, j: nat) -> nat
    decreases d - j,
{
    if j >= d || stops_at(n, d, j) {
        j
    } else {
        stop_from(n, d, j + 1)
    }
}

pub open spec fn sign_str(negative: bool) -> Seq<char> {
    if negative {
        seq!['-']
    } else {
        Seq::empty()
    }
}

/// The decimal expansion up to where it stops or starts repeating, and the
/// length of the repeating block if there is one.
pub open spec fn decimal_spec(a: RationalNumber) -> (Seq<char>, Option<nat>) {
    let n = a.numerator as nat;
    let d = a.denominator as nat;
    let whole = sign_str(a.negative) + nat_str(n / d);
    if n % d == 0 {
        (whole, None)
    } else {
        let k = stop_from(n, d, 1);
        let s = whole + seq!['.'] + frac_digits(n, d, k);
        if rem_at(n, d, k) == 0 {
            (s, None)
        } else {
            match first_repeat_from(n, d, k, 0) {
                Some(j) => (s, Some((k - j) as nat)),
                None => (s, None),
            }
        }
    }
}

pub open spec fn fraction_str(a: RationalNumber) -> Seq<char> {
    sign_str(a.negative) + nat_str(a.numerator as nat) + seq!['/'] + nat_str(a.denominator as nat)
}

pub open spec fn mixed_str(a: RationalNumber) -> Seq<char> {
    let whole = a.numerator as nat / a.denominator as nat;
    let rem = a.numerator as nat % a.denominator as nat;
    if a.numerator < a.denominator {
        fraction_str(a)
    } else if rem == 0 {
        sign_str(a.negative) + nat_str(whole)
    } else {
        sign_str(a.negative) + nat_str(whole) + seq![' '] + nat_str(rem) + seq!['/'] + nat_str(
            a.denominator as nat,
        )
    }
}

/// The decimal expansion with `bar` before the repeating block.
pub open spec fn repeating_str(a: RationalNumber) -> Seq<char> {
    let s = decimal_spec(a).0;
    match decimal_spec(a).1 {
        Some(c) => s.subrange(0, s.len() - c) + seq!['b', 'a', 'r'] + s.subrange(
            s.len() - c,
            s.len() as int,
        ),
        None => s,
    }
}

/// The value rounded at a place, halves away from zero.  Below the ones place
/// the digits are kept to that place; from the ones place up the integer part is
/// rounded to a multiple of the place.
pub open spec fn rounded_str(a: RationalNumber, p: PlaceValue) -> Seq<char> {
    let n = a.numerator as nat;
    let d = a.denominator as nat;
    if place_exponent(p) < 0 {
        let k = (-place_exponent(p)) as nat;
        let r = ((n * pow10(k + 1)) / d + 5) / 10;
        sign_str(a.negative) + nat_str(r / pow10(k)) + seq!['.'] + padded_str(r % pow10(k), k)
    } else {
        let t = round_nat(n / d, place_exponent(p) as nat);
        sign_str(a.negative && t != 0) + nat_str(t)
    }
}

/// The text of a number in a format.
pub open spec fn as_str_spec(a: RationalNumber, f: NumberDisplayFormat) -> Seq<char> {
    if a.numerator == 0 {
        seq!['0']
    } else {
        match f {
            NumberDisplayFormat::Decimal(None) => repeating_str(a),
            NumberDisplayFormat::Decimal(Some(p)) => rounded_str(a, p),
            NumberDisplayFormat::Fraction => fraction_str(a),
            NumberDisplayFormat::Mixed => mixed_str(a),
        }
    }
}

/// The first index of `x` in `v`.
fn position(v: &Vec<u64>, x: u64) -> (r: Option<usize>)
    ensures
        r matches Some(j) ==> j < v@.len() && v@[j as int] == x && forall|k: int|
            0 <= k < j ==> v@[k] != x,
        r is None ==> forall|k: int| 0 <= k < v@.len() ==> v@[k] != x,
{
    let mut i: usize = 0;
    while i < v.len()
        invariant
            i <= v@.len(),
            forall|k: int| 0 <= k < i ==> v@[k] != x,
        decreases v@.len() - i,
    {
        if v[i] == x {
            return Some(i);
        }
        i = i + 1;
    }
    None
}

proof fn lemma_first_repeat(n: nat, d: nat, i: nat, start: nat)
    requires
        start <= i,
    ensures
        first_repeat_from(n, d, i, start) matches Some(j) ==> start <= j < i && rem_at(n, d, j)
            == rem_at(n, d, i) && forall|k: nat| start <= k < j ==> rem_at(n, d, k) != rem_at(
            n,
            d,
            i,
        ),
        first_repeat_from(n, d, i, start) is None ==> forall|k: nat|
            start <= k < i ==> rem_at(n, d, k) != rem_at(n, d, i),
    decreases i - start,
{
    if start < i {
        lemma_first_repeat(n, d, i, start + 1);
    }
}

proof fn lemma_first_repeat_unique(n: nat, d: nat, i: nat, j: nat)
    requires
        j < i,
        rem_at(n, d, j) == rem_at(n, d, i),
        forall|k: nat| k < j ==> rem_at(n, d, k) != rem_at(n, d, i),
    ensures
        first_repeat_from(n, d, i, 0) == Some(j),
{
    lemma_first_repeat(n, d, i, 0);
    match first_repeat_from(n, d, i, 0) {
        Some(m) => {
            assert(m == j) by {
                if m < j {
                    assert(rem_at(n, d, m) != rem_at(n, d, i));
                } else if m > j {
                    assert(rem_at(n, d, j) != rem_at(n, d, i));
                }
            }
        },
        None => {
            assert(rem_at(n, d, j) != rem_at(n, d, i));
        },
    }
}

/// Long division by `d` stops before digit `d`: the remainders before that
/// are `d` values below `d`, so one is zero or comes back.
pub proof fn lemma_division_stops(n: nat, d: nat)
    requires
        d > 0,
        n % d != 0,
    ensures
        exists|i: nat| 1 <= i < d && stops_at(n, d, i),
{
    if !(exists|i: nat| 1 <= i < d && stops_at(n, d, i)) {
        let x = set_int_range(0, d as int);
        let f = |j: int| rem_at(n, d, j as nat) as int;
        let y = x.map(f);
        assert forall|j: int| 0 <= j < d implies 1 <= #[trigger] rem_at(n, d, j as nat) < d by {
            if j > 0 {
                assert(!stops_at(n, d, j as nat));
            }
            lemma_rem_below(n, d, j as nat);
        }
        assert forall|a: int, b: int| x.contains(a) && x.contains(b) && #[trigger] f(a) == #[trigger] f(b)
            implies a == b by {
            if a < b {
                assert(!stops_at(n, d, b as nat));
                lemma_first_repeat(n, d, b as nat, 0);
                assert(rem_at(n, d, a as nat) != rem_at(n, d, b as nat));
            } else if b < a {
                assert(!stops_at(n, d, a as nat));
                lemma_first_repeat(n, d, a as nat, 0);
                assert(rem_at(n, d, b as nat) != rem_at(n, d, a as nat));
            }
        }
        lemma_int_range(0, d as int);
        lemma_map_size(x, y, f);
        assert(y.subset_of(set_int_range(1, d as int))) by {
            assert forall|v: int| y.contains(v) implies set_int_range(1, d as int).contains(v) by {
                let j = choose|j: int| x.contains(j) && f(j) == v;
                assert(1 <= rem_at(n, d, j as nat) < d);
            }
        }
        lemma_int_range(1, d as int);
        lemma_len_subset(y, set_int_range(1, d as int));
    }
}

proof fn lemma_rem_below(n: nat, d: nat, i: nat)
    requires
        d > 0,
    ensures
        rem_at(n, d, i) < d,
{
}

/// The search for the stopping digit from `j` ends at a digit where long
/// division stops, when one lies between `j` and `d`.
proof fn lemma_stop_from(n: nat, d: nat, j: nat, i: nat)
    requires
        j <= i < d,
        stops_at(n, d, i),
    ensures
        j <= stop_from(n, d, j) <= i,
        stops_at(n, d, stop_from(n, d, j)),
    decreases i - j,
{
    if !stops_at(n, d, j) {
        lemma_stop_from(n, d, j + 1, i);
    }
}

impl RationalNumber {
    /// Whether the decimal expansion repeats.
    pub fn repeating(&self) -> (r: bool)
        requires
            self.wf(),
        ensures
            r == decimal_spec(*self).1 is Some,
    {
        let (_, count) = self.as_decimal_str();
        count.is_some()
    }

    /// The decimal expansion by long division, up to where it stops or a
    /// remainder comes back, and the length of the repeating block.
    pub fn as_decimal_str(&self) -> (r: (String, Option<usize>))
        requires
            self.wf(),
        ensures
            r.0@ == decimal_spec(*self).0,
            r.1 matches Some(c) ==> decimal_spec(*self).1 == Some(c as nat),
            r.1 is None ==> decimal_spec(*self).1 is None,
    {
        let ghost gn = self.numerator as nat;
        let ghost gd = self.denominator as nat;
        let mut s = String::new();
        if self.negative {
            s.push('-');
        }
        let n = self.numerator as u64;
        let d = self.denominator as u64;
        push_nat(&mut s, n / d);
        let mut remainder: u64 = n % d;
        if remainder == 0 {
            return (s, None);
        }
        s.push('.');
        let ghost prefix = s@;
        proof {
            lemma_division_stops(gn, gd);
            let i = choose|i: nat| 1 <= i < gd && stops_at(gn, gd, i);
            lemma_stop_from(gn, gd, 1, i);
        }
        let mut remainders: Vec<u64> = Vec::new();
        remainders.push(remainder);
        let mut i: u64 = 0;
        loop
            invariant
                d == gd,
                n == gn,
                gn == self.numerator as nat,
                gd == self.denominator as nat,
                0 < d <= u32::MAX,
                i < d,
                remainders@.len() == i + 1,
                forall|j: int| 0 <= j <= i ==> remainders@[j] == rem_at(gn, gd, j as nat),
                remainder == rem_at(gn, gd, i as nat),
                remainder < d,
                s@ == prefix + frac_digits(gn, gd, i as nat),
                prefix == sign_str(self.negative) + nat_str(gn / gd) + seq!['.'],
                gn % gd != 0,
                stop_from(gn, gd, 1) == stop_from(gn, gd, i as nat + 1),
                i + 1 <= stop_from(gn, gd, 1) < d,
                stops_at(gn, gd, stop_from(gn, gd, 1)),
            decreases d - i,
        {
            let ghost previous = remainder;
            remainder = remainder * 10;
            let digit = remainder / d;
            remainder = remainder % d;
            proof {
                assert(digit < 10) by (nonlinear_arith)
                    requires
                        digit == (previous * 10) / d as int,
                        previous < d,
                        d > 0,
                ;
            }
            s.push(digit_to_char(digit));
            i = i + 1;
            proof {
                assert(remainder == rem_at(gn, gd, i as nat));
                assert(s@ == prefix + frac_digits(gn, gd, i as nat));
            }
            let pos = position(&remainders, remainder);
            proof {
                lemma_first_repeat(gn, gd, i as nat, 0);
                match pos {
                    Some(j) => {
                        assert forall|k: nat| k < j implies rem_at(gn, gd, k) != rem_at(gn, gd, i as nat) by {
                            assert(remainders@[k as int] != remainder);
                        }
                        lemma_first_repeat_unique(gn, gd, i as nat, j as nat);
                    },
                    None => {
                        assert forall|k: nat| k < i implies rem_at(gn, gd, k) != rem_at(gn, gd, i as nat) by {
                            assert(remainders@[k as int] != remainder);
                        }
                        if first_repeat_from(gn, gd, i as nat, 0) is Some {
                            let j = first_repeat_from(gn, gd, i as nat, 0)->Some_0;
                            assert(rem_at(gn, gd, j) != rem_at(gn, gd, i as nat));
                        }
                    },
                }
            }
            if remainder == 0 {
                proof {
                    assert(stops_at(gn, gd, i as nat));
                    assert(stop_from(gn, gd, 1) == i as nat);
                }
                return (s, None);
            }
            if let Some(j) = pos {
                proof {
                    assert(stops_at(gn, gd, i as nat));
                    assert(stop_from(gn, gd, 1) == i as nat);
                }
                return (s, Some(remainders.len() - j));
            }
            proof {
                assert(!stops_at(gn, gd, i as nat));
                assert(i < d) by {
                    if i >= d {
                        assert(stop_from(gn, gd, i as nat) == i as nat);
                    }
                }
                assert(stop_from(gn, gd, i as nat) == stop_from(gn, gd, i as nat + 1));
            }
            remainders.push(remainder);
        }
    }
}


proof fn lemma_frac_digits_len(n: nat, d: nat, k: nat)
    ensures
        frac_digits(n, d, k).len() == k,
    decreases k,
{
    if k > 0 {
        lemma_frac_digits_len(n, d, (k - 1) as nat);
    }
}

/// Appends the sign of a number: a minus when `negative`.
fn push_sign(s: &mut String, negative: bool)
    ensures
        final(s)@ == old(s)@ + sign_str(negative),
{
    if negative {
        s.push('-');
    }
    proof {
        assert(final(s)@ =~= old(s)@ + sign_str(negative));
    }
}

impl RationalNumber {
    fn fraction_text(&self) -> (r: String)
        ensures
            r@ == fraction_str(*self),
    {
        let mut s = String::new();
        push_sign(&mut s, self.negative);
        push_nat(&mut s, self.numerator as u64);
        s.push('/');
        push_nat(&mut s, self.denominator as u64);
        proof {
            assert(s@ =~= fraction_str(*self));
        }
        s
    }

    fn mixed_text(&self) -> (r: String)
        requires
            self.wf(),
        ensures
            r@ == mixed_str(*self),
    {
        let whole = self.numerator / self.denominator;
        let remainder = self.numerator % self.denominator;
        if self.numerator < self.denominator {
            return self.fraction_text();
        }
        let mut s = String::new();
        push_sign(&mut s, self.negative);
        push_nat(&mut s, whole as u64);
        if remainder != 0 {
            s.push(' ');
            push_nat(&mut s, remainder as u64);
            s.push('/');
            push_nat(&mut s, self.denominator as u64);
        }
        proof {
            assert(s@ =~= mixed_str(*self));
        }
        s
    }

    fn repeating_text(&self) -> (r: String)
        requires
            self.wf(),
        ensures
            r@ == repeating_str(*self),
    {
        let (s, count) = self.as_decimal_str();
        match count {
            None => s,
            Some(c) => {
                let len = s.as_str().unicode_len();
                proof {
                    let n = self.numerator as nat;
                    let d = self.denominator as nat;
                    let k = stop_from(n, d, 1);
                    lemma_frac_digits_len(n, d, k);
                    lemma_first_repeat(n, d, k, 0);
                    assert(c <= len);
                }
                let split = len - c;
                let mut out = String::new();
                let mut i: usize = 0;
                while i < len
                    invariant
                        len == s@.len(),
                        split <= len,
                        i <= len,
                        out@ == if i <= split {
                            s@.subrange(0, i as int)
                        } else {
                            s@.subrange(0, split as int) + seq!['b', 'a', 'r'] + s@.subrange(
                                split as int,
                                i as int,
                            )
                        },
                    decreases len - i,
                {
                    if i == split {
                        out.push('b');
                        out.push('a');
                        out.push('r');
                    }
                    out.push(s.as_str().get_char(i));
                    i = i + 1;
                    proof {
                        if i <= split {
                            assert(out@ =~= s@.subrange(0, i as int));
                        } else {
                            assert(out@ =~= s@.subrange(0, split as int) + seq!['b', 'a', 'r']
                                + s@.subrange(split as int, i as int));
                        }
                    }
                }
                if split == len {
                    out.push('b');
                    out.push('a');
                    out.push('r');
                }
                proof {
                    assert(out@ =~= repeating_str(*self));
                }
                out
            },
        }
    }

    fn rounded_text(&self, place: PlaceValue) -> (r: String)
        requires
            self.wf(),
        ensures
            r@ == rounded_str(*self, place),
    {
        let e = place.exponent();
        let n = self.numerator as u64;
        let d = self.denominator as u64;
        let mut s = String::new();
        if e < 0 {
            let k = (-e) as u32;
            let f1 = pow10_u64(k + 1);
            let fk = pow10_u64(k);
            proof {
                assert(n * f1 <= 4294967295 * 10000000) by (nonlinear_arith)
                    requires n <= 4294967295, f1 <= 10000000;
                assert((n * f1) / d as int <= n * f1) by (nonlinear_arith)
                    requires d > 0, n * f1 >= 0;
            }
            let q = (n * f1) / d;
            let r = (q + 5) / 10;
            push_sign(&mut s, self.negative);
            push_nat(&mut s, r / fk);
            s.push('.');
            push_padded(&mut s, r % fk, k as u64);
            proof {
                assert(s@ =~= rounded_str(*self, place));
            }
        } else {
            let w = n / d;
            let t: u64 = if e == 0 {
                w
            } else {
                let f = pow10_u64(e as u32);
                let half = 5 * pow10_u64((e - 1) as u32);
                proof {
                    assert(((w + half) / f as int) * f <= w + half) by (nonlinear_arith)
                        requires f > 0, w + half >= 0;
                }
                ((w + half) / f) * f
            };
            push_sign(&mut s, self.negative && t != 0);
            push_nat(&mut s, t);
            proof {
                assert(s@ =~= rounded_str(*self, place));
            }
        }
        s
    }

    /// The number written in a format, or in its own when none is given.
    pub fn as_str(&self, format: Option<NumberDisplayFormat>) -> (r: String)
        requires
            self.wf(),
        ensures
            r@ == as_str_spec(
                *self,
                match format {
                    Some(f) => f,
                    None => self.format,
                },
            ),
    {
        if self.numerator == 0 {
            let mut s = String::new();
            s.push('0');
            proof {
                assert(s@ =~= seq!['0']);
            }
            return s;
        }
        let format = match format {
            Some(f) => f,
            None => self.format,
        };
        match format {
            NumberDisplayFormat::Decimal(place_value) => match place_value {
                Some(p) => self.rounded_text(p),
                None => self.repeating_text(),
            },
            NumberDisplayFormat::Fraction => self.fraction_text(),
            NumberDisplayFormat::Mixed => self.mixed_text(),
        }
    }
}


impl RationalNumber {
    /// The number written in its own format.
    pub fn to_string(&self) -> (r: String)
        requires
            self.wf(),
        ensures
            r@ == as_str_spec(*self, self.format),
    {
        self.as_str(None)
    }
}

} // verus!
