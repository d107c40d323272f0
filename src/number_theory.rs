//! Facts about Euclid's greatest common divisor, used by the rational arithmetic.
use vstd::arithmetic::div_mod::{lemma_fundamental_div_mod, lemma_fundamental_div_mod_converse};
use vstd::prelude::*;

verus! {

/// Greatest common divisor by Euclid's recursion (`gcd(a, 0) == a`).
pub open spec fn gcd(a: nat, b: nat) -> nat
    decreases b,
{
    if b == 0 {
        a
    } else {
        gcd(b, a % b)
    }
}

/// Least common multiple as computed from the gcd.
pub open spec fn lcm_spec(a: nat, b: nat) -> nat {
    if gcd(a, b) == 0 {
        0
    } else {
        (a / gcd(a, b)) * b
    }
}

proof fn lemma_mod_of_combination(x: int, y: int, k: int, g: int)
    requires
        g > 0,
        x % g == 0,
        y % g == 0,
    ensures
        (k * x + y) % g == 0,
{
    lemma_fundamental_div_mod(x, g);
    lemma_fundamental_div_mod(y, g);
    let p = x / g;
    let q = y / g;
    assert(k * x + y == (k * p + q) * g) by (nonlinear_arith)
        requires
            x == g * p,
            y == g * q,
    ;
    lemma_fundamental_div_mod_converse(k * x + y, g, k * p + q, 0);
}

/// The gcd is positive and divides both arguments unless both are zero.
pub proof fn lemma_gcd_divides(a: nat, b: nat)
    ensures
        (a > 0 || b > 0) ==> gcd(a, b) > 0,
        gcd(a, b) > 0 ==> a % gcd(a, b) == 0 && b % gcd(a, b) == 0,
    decreases b,
{
    if b > 0 {
        lemma_gcd_divides(b, a % b);
        let g = gcd(a, b);
        lemma_fundamental_div_mod(a as int, b as int);
        lemma_mod_of_combination(b as int, (a % b) as int, (a / b) as int, g as int);
        assert(a as int == (a / b) as int * b as int + (a % b) as int) by (nonlinear_arith)
            requires
                a as int == b as int * (a as int / b as int) + (a as int % b as int),
        ;
    }
}

/// Scaling both arguments scales the gcd.
pub proof fn lemma_gcd_scale(a: nat, b: nat, k: nat)
    requires
        k > 0,
    ensures
        gcd(a * k, b * k) == k * gcd(a, b),
    decreases b,
{
    if b == 0 {
        assert(b * k == 0);
        assert(gcd(a * k, 0) == a * k);
        assert(a * k == k * a) by (nonlinear_arith);
    } else {
        let q = a / b;
        let r = a % b;
        lemma_fundamental_div_mod(a as int, b as int);
        assert(a * k == q * (b * k) + r * k) by (nonlinear_arith)
            requires
                a as int == b as int * q + r,
        ;
        assert(r * k < b * k) by (nonlinear_arith)
            requires
                r < b,
                k > 0,
        ;
        assert(b * k > 0) by (nonlinear_arith)
            requires
                b > 0,
                k > 0,
        ;
        lemma_fundamental_div_mod_converse((a * k) as int, (b * k) as int, q as int, (r * k) as int);
        assert((a * k) % (b * k) == r * k);
        lemma_gcd_scale(b, r, k);
    }
}

/// Euclid's gcd is symmetric.
pub proof fn lemma_gcd_sym(a: nat, b: nat)
    ensures
        gcd(a, b) == gcd(b, a),
{
    if a == 0 {
        assert(gcd(0, b) == gcd(b, 0)) by {
            if b > 0 {
                assert(0nat % b == 0);
            }
        }
    } else if b == 0 {
        assert(gcd(b, a) == gcd(a, 0nat % a));
    } else if a < b {
        assert(a % b == a) by {
            lemma_fundamental_div_mod_converse(a as int, b as int, 0, a as int);
        }
    } else if b < a {
        assert(b % a == b) by {
            lemma_fundamental_div_mod_converse(b as int, a as int, 0, b as int);
        }
    } else {
    }
}

/// The gcd of a multiple of `d` with `d` itself is `d`.
pub proof fn lemma_gcd_of_multiple(m: nat, d: nat)
    requires
        d > 0,
        m % d == 0,
    ensures
        gcd(m, d) == d,
{
    assert(gcd(m, d) == gcd(d, m % d));
    assert(gcd(d, 0) == d);
}

/// The least common multiple is a common multiple of both (positive) arguments.
pub proof fn lemma_lcm_multiple(a: nat, b: nat)
    requires
        a > 0,
        b > 0,
    ensures
        lcm_spec(a, b) > 0,
        lcm_spec(a, b) % a == 0,
        lcm_spec(a, b) % b == 0,
        lcm_spec(a, b) == (a / gcd(a, b)) * b,
        lcm_spec(a, b) == a * (b / gcd(a, b)),
        lcm_spec(a, b) <= a * b,
{
    lemma_gcd_divides(a, b);
    let g = gcd(a, b);
    lemma_fundamental_div_mod(a as int, g as int);
    lemma_fundamental_div_mod(b as int, g as int);
    let p = a / g;
    let q = b / g;
    assert(p > 0 && q > 0) by (nonlinear_arith)
        requires
            a == g * p,
            b == g * q,
            a > 0,
            b > 0,
    ;
    assert(p * b == a * q && p * b == (q * p) * g && p * b <= a * b) by (nonlinear_arith)
        requires
            a == g * p,
            b == g * q,
            g > 0,
            p > 0,
            q > 0,
    ;
    lemma_fundamental_div_mod_converse((p * b) as int, b as int, p as int, 0);
    lemma_fundamental_div_mod_converse((p * b) as int, a as int, q as int, 0);
}

} // verus!
