//! Scanning text for spaces and digits.
use vstd::prelude::*;

use crate::digits::{digit_value, digits_value, is_digit};

verus! {

/// White space as Unicode defines it.
pub open spec fn is_space(c: char) -> bool {
    ('\t' <= c && c <= '\r') || c == ' ' || c == '\u{85}' || c == '\u{a0}' || c == '\u{1680}' || (
    '\u{2000}' <= c && c <= '\u{200a}') || c == '\u{2028}' || c == '\u{2029}' || c == '\u{202f}'
        || c == '\u{205f}' || c == '\u{3000}'
}

pub fn is_space_char(c: char) -> (r: bool)
    ensures
        r == is_space(c),
{
    ('\t' <= c && c <= '\r') || c == ' ' || c == '\u{85}' || c == '\u{a0}' || c == '\u{1680}' || (
    '\u{2000}' <= c && c <= '\u{200a}') || c == '\u{2028}' || c == '\u{2029}' || c == '\u{202f}'
        || c == '\u{205f}' || c == '\u{3000}'
}

pub fn is_digit_char(c: char) -> (r: bool)
    ensures
        r == is_digit(c),
{
    '0' <= c && c <= '9'
}

/// The first index from `i` on that holds no white space.
pub open spec fn skip_spaces(t: Seq<char>, i: nat) -> nat
    decreases t.len() - i,
{
    if i < t.len() && is_space(t[i as int]) {
        skip_spaces(t, i + 1)
    } else {
        i
    }
}

/// The first index from `i` on that holds no digit.
pub open spec fn skip_digits(t: Seq<char>, i: nat) -> nat
    decreases t.len() - i,
{
    if i < t.len() && is_digit(t[i as int]) {
        skip_digits(t, i + 1)
    } else {
        i
    }
}

/// The characters of `v` from `a` up to `b`.
pub open spec fn window(v: Seq<char>, a: usize, b: usize) -> Seq<char> {
    v.subrange(a as int, b as int)
}

pub fn skip_spaces_in(v: &Vec<char>, a: usize, b: usize, i: usize) -> (r: usize)
    requires
        a <= b <= v@.len(),
    ensures
        r == skip_spaces(window(v@, a, b), i as nat),
        i <= b - a ==> i <= r <= b - a,
        i > b - a ==> r == i,
{
    let ghost t = window(v@, a, b);
    let mut j = i;
    while j < b - a && is_space_char(v[a + j])
        invariant
            a <= b <= v@.len(),
            t == window(v@, a, b),
            i <= j,
            i <= b - a ==> j <= b - a,
            i > b - a ==> j == i,
            skip_spaces(t, i as nat) == skip_spaces(t, j as nat),
        decreases b - a - j,
    {
        j = j + 1;
    }
    j
}

pub fn skip_digits_in(v: &Vec<char>, a: usize, b: usize, i: usize) -> (r: usize)
    requires
        a <= b <= v@.len(),
    ensures
        r == skip_digits(window(v@, a, b), i as nat),
        i <= b - a ==> i <= r <= b - a,
        i > b - a ==> r == i,
{
    let ghost t = window(v@, a, b);
    let mut j = i;
    while j < b - a && is_digit_char(v[a + j])
        invariant
            a <= b <= v@.len(),
            t == window(v@, a, b),
            i <= j,
            i <= b - a ==> j <= b - a,
            i > b - a ==> j == i,
            skip_digits(t, i as nat) == skip_digits(t, j as nat),
        decreases b - a - j,
    {
        j = j + 1;
    }
    j
}

/// Every character from `i` up to `skip_digits(t, i)` is a digit.
pub proof fn lemma_skip_digits(t: Seq<char>, i: nat)
    requires
        i <= t.len(),
    ensures
        i <= skip_digits(t, i) <= t.len(),
        forall|k: int| i <= k < skip_digits(t, i) ==> is_digit(#[trigger] t[k]),
        skip_digits(t, i) < t.len() ==> !is_digit(t[skip_digits(t, i) as int]),
    decreases t.len() - i,
{
    if i < t.len() && is_digit(t[i as int]) {
        lemma_skip_digits(t, i + 1);
    }
}

proof fn lemma_digits_value_step(s: Seq<char>, j: int)
    requires
        0 <= j < s.len(),
    ensures
        digits_value(s.subrange(0, j + 1)) == digits_value(s.subrange(0, j)) * 10 + digit_value(
            s[j],
        ),
{
    assert(s.subrange(0, j + 1).drop_last() =~= s.subrange(0, j));
}

/// A longer run of digits is worth at least as much as its prefix.
pub proof fn lemma_digits_value_grows(s: Seq<char>, j: int)
    requires
        0 <= j <= s.len(),
    ensures
        digits_value(s) >= digits_value(s.subrange(0, j)),
    decreases s.len() - j,
{
    if j < s.len() {
        lemma_digits_value_grows(s, j + 1);
        lemma_digits_value_step(s, j);
    } else {
        assert(s.subrange(0, j) =~= s);
    }
}

/// The value of the digits of `v` from `i` up to `j`, if it fits in 32 bits.
pub fn digits_to_u32(v: &Vec<char>, i: usize, j: usize) -> (r: Option<u32>)
    requires
        i <= j <= v@.len(),
        forall|k: int| i <= k < j ==> is_digit(#[trigger] v@[k]),
    ensures
        digits_value(v@.subrange(i as int, j as int)) <= u32::MAX ==> r == Some(
            digits_value(v@.subrange(i as int, j as int)) as u32,
        ),
        digits_value(v@.subrange(i as int, j as int)) > u32::MAX ==> r is None,
{
    let ghost s = v@.subrange(i as int, j as int);
    let mut acc: u64 = 0;
    let mut k = i;
    while k < j
        invariant
            i <= k <= j <= v@.len(),
            s == v@.subrange(i as int, j as int),
            forall|m: int| i <= m < j ==> is_digit(#[trigger] v@[m]),
            acc == digits_value(s.subrange(0, (k - i) as int)),
            acc <= u32::MAX,
        decreases j - k,
    {
        let c = v[k];
        proof {
            assert(is_digit(v@[k as int]));
            assert(s[(k - i) as int] == c);
            lemma_digits_value_step(s, (k - i) as int);
        }
        acc = acc * 10 + (c as u32 - '0' as u32) as u64;
        k = k + 1;
        if acc > u32::MAX as u64 {
            proof {
                lemma_digits_value_grows(s, (k - i) as int);
            }
            return None;
        }
    }
    proof {
        assert(s.subrange(0, (k - i) as int) =~= s);
    }
    Some(acc as u32)
}

/// The characters of a string.
pub fn chars_of(s: &str) -> (r: Vec<char>)
    ensures
        r@ == s@,
{
    let len = s.unicode_len();
    let mut v: Vec<char> = Vec::new();
    let mut i: usize = 0;
    while i < len
        invariant
            len == s@.len(),
            i <= len,
            v@ == s@.subrange(0, i as int),
        decreases len - i,
    {
        v.push(s.get_char(i));
        i = i + 1;
        proof {
            assert(v@ =~= s@.subrange(0, i as int));
        }
    }
    proof {
        assert(v@ =~= s@);
    }
    v
}


/// A run of digits from `i` that ends at `j` is skipped to `j`.
pub proof fn lemma_skip_digits_to(t: Seq<char>, i: nat, j: nat)
    requires
        i <= j <= t.len(),
        forall|k: int| i <= k < j ==> is_digit(#[trigger] t[k]),
        j == t.len() || !is_digit(t[j as int]),
    ensures
        skip_digits(t, i) == j,
    decreases j - i,
{
    if i < j {
        lemma_skip_digits_to(t, i + 1, j);
    }
}

/// Skipping space stops at once at a character that is not space.
pub proof fn lemma_skip_spaces_at(t: Seq<char>, i: nat)
    requires
        i <= t.len(),
        i == t.len() || !is_space(t[i as int]),
    ensures
        skip_spaces(t, i) == i,
{
}

/// A digit is not white space.
pub proof fn lemma_digit_not_space(c: char)
    requires
        is_digit(c),
    ensures
        !is_space(c),
{
}

} // verus!
