//! Integer arithmetic underlying the fixed-point decimals: powers of ten
//! and rounding of an exact quotient to the nearest integer, half to even.

use vstd::arithmetic::div_mod::{lemma_div_is_ordered_by_denominator, lemma_fundamental_div_mod};
use vstd::prelude::*;

verus! {

/// Ten raised to the power `e`, as a mathematical integer.
pub open spec fn pow10(e: nat) -> int
    decreases e,
{
    if e == 0 {
        1
    } else {
        10 * pow10((e - 1) as nat)
    }
}

pub broadcast proof fn lemma_pow10_pos(e: nat)
    ensures
        #[trigger] pow10(e) >= 1,
    decreases e,
{
    if e > 0 {
        lemma_pow10_pos((e - 1) as nat);
    }
}

pub proof fn lemma_pow10_add(a: nat, b: nat)
    ensures
        pow10(a + b) == pow10(a) * pow10(b),
    decreases a,
{
    if a == 0 {
    } else {
        lemma_pow10_add((a - 1) as nat, b);
        assert(pow10(a + b) == 10 * pow10(((a + b) - 1) as nat));
        assert(10 * (pow10((a - 1) as nat) * pow10(b)) == (10 * pow10((a - 1) as nat)) * pow10(b))
            by (nonlinear_arith);
    }
}

pub proof fn lemma_pow10_increases(a: nat, b: nat)
    requires
        a <= b,
    ensures
        pow10(a) <= pow10(b),
{
    lemma_pow10_add(a, (b - a) as nat);
    lemma_pow10_pos((b - a) as nat);
    lemma_pow10_pos(a);
    assert(pow10(a) * 1 <= pow10(a) * pow10((b - a) as nat)) by (nonlinear_arith)
        requires
            pow10(a) >= 1,
            pow10((b - a) as nat) >= 1,
    ;
}

/// The exact quotient `n / d` rounded to the nearest integer; a quotient
/// exactly halfway between two integers rounds to the even one.
pub open spec fn round_half_even(n: int, d: int) -> int
    recommends
        d > 0,
{
    let q = n / d;
    let r = n % d;
    if 2 * r < d {
        q
    } else if 2 * r > d {
        q + 1
    } else if q % 2 == 0 {
        q
    } else {
        q + 1
    }
}

/// Rounding moves the value by at most half of the denominator:
/// `|round_half_even(n, d) * d - n| <= d / 2`.
pub proof fn lemma_rhe_error(n: int, d: int)
    requires
        d > 0,
    ensures
        2 * abs_int(round_half_even(n, d) * d - n) <= d,
{
    lemma_fundamental_div_mod(n, d);
    let q = n / d;
    let r = n % d;
    assert(n == d * q + r);
    assert(q * d - n == -r) by (nonlinear_arith)
        requires
            n == d * q + r,
    ;
    assert((q + 1) * d - n == d - r) by (nonlinear_arith)
        requires
            n == d * q + r,
    ;
}

/// The absolute value.
pub open spec fn abs_int(x: int) -> int {
    if x >= 0 {
        x
    } else {
        -x
    }
}

/// Rounding commutes with negation: a tie rounds to the even neighbour on
/// either side of zero.
pub proof fn lemma_rhe_neg(n: int, d: int)
    requires
        d > 0,
    ensures
        round_half_even(-n, d) == -round_half_even(n, d),
{
    lemma_fundamental_div_mod(n, d);
    lemma_fundamental_div_mod(-n, d);
    let q = n / d;
    let r = n % d;
    if r == 0 {
        assert(-n == d * (-q) + 0) by (nonlinear_arith)
            requires
                n == d * q,
        ;
        lemma_div_mod_unique(-n, d, -q, 0);
    } else {
        assert(-n == d * (-q - 1) + (d - r)) by (nonlinear_arith)
            requires
                n == d * q + r,
        ;
        lemma_div_mod_unique(-n, d, -q - 1, d - r);
        if 2 * r == d {
            assert(q % 2 == 0 <==> (-q - 1) % 2 != 0) by {
                lemma_even_neg_odd(q);
            }
        }
    }
}

/// A quotient and remainder in range determine `/` and `%`.
pub(crate) proof fn lemma_div_mod_unique(n: int, d: int, q: int, r: int)
    requires
        d > 0,
        0 <= r < d,
        n == d * q + r,
    ensures
        n / d == q,
        n % d == r,
{
    lemma_fundamental_div_mod(n, d);
    assert(n / d == q && n % d == r) by (nonlinear_arith)
        requires
            d > 0,
            0 <= r < d,
            n == d * q + r,
            n == d * (n / d) + (n % d),
            0 <= n % d < d,
    ;
}

proof fn lemma_even_neg_odd(q: int)
    ensures
        q % 2 == 0 <==> (-q - 1) % 2 != 0,
{
    lemma_fundamental_div_mod(q, 2);
    let h = q / 2;
    let p = q % 2;
    if p == 0 {
        assert(-q - 1 == 2 * (-h - 1) + 1) by (nonlinear_arith)
            requires
                q == 2 * h,
        ;
        lemma_div_mod_unique(-q - 1, 2, -h - 1, 1);
    } else {
        assert(-q - 1 == 2 * (-h - 1) + 0) by (nonlinear_arith)
            requires
                q == 2 * h + 1,
        ;
        lemma_div_mod_unique(-q - 1, 2, -h - 1, 0);
    }
}

/// Rounding sees only the exact quotient: a common factor of numerator and
/// denominator changes nothing.
pub proof fn lemma_rhe_scale(n: int, d: int, k: int)
    requires
        d >= 1,
        k >= 1,
    ensures
        round_half_even(n * k, d * k) == round_half_even(n, d),
{
    lemma_fundamental_div_mod(n, d);
    let q = n / d;
    let r = n % d;
    assert(n * k == (d * k) * q + r * k && 0 <= r * k && r * k < d * k) by (nonlinear_arith)
        requires
            n == d * q + r,
            0 <= r < d,
            k >= 1,
    ;
    lemma_div_mod_unique(n * k, d * k, q, r * k);
    assert((2 * (r * k) < d * k <==> 2 * r < d) && (2 * (r * k) > d * k <==> 2 * r > d))
        by (nonlinear_arith)
        requires
            k >= 1,
    ;
}

/// The rounded quotient never exceeds the numerator's magnitude bound.
pub proof fn lemma_rhe_bound(n: int, d: int, bound: int)
    requires
        d >= 1,
        bound >= 2,
        abs_int(n) <= bound,
    ensures
        abs_int(round_half_even(n, d)) <= bound,
{
    lemma_fundamental_div_mod(n, d);
    let q = n / d;
    let r = n % d;
    if d == 1 {
        assert(r == 0);
        assert(q == n) by (nonlinear_arith)
            requires
                n == d * q + r,
                d == 1,
                r == 0,
        ;
    } else {
        assert(-bound <= q && q + 1 <= bound) by (nonlinear_arith)
            requires
                n == d * q + r,
                0 <= r < d,
                d >= 2,
                bound >= 2,
                -bound <= n <= bound,
        ;
    }
}

/// `pow10(38)` written out, for overflow bounds: it fits an `i128`.
pub proof fn lemma_pow10_38()
    ensures
        pow10(38) == 100000000000000000000000000000000000000int,
{
    reveal_with_fuel(pow10, 40);
}

/// Ten to the power `e`, as a machine integer.
pub fn pow10_i128(e: u32) -> (r: i128)
    requires
        e <= 38,
    ensures
        r == pow10(e as nat),
{
    proof {
        lemma_pow10_38();
    }
    let mut r: i128 = 1;
    let mut i: u32 = 0;
    while i < e
        invariant
            i <= e <= 38,
            r == pow10(i as nat),
            pow10(38) == 100000000000000000000000000000000000000int,
        decreases e - i,
    {
        proof {
            lemma_pow10_increases((i + 1) as nat, 38);
            lemma_pow10_pos(i as nat);
        }
        r = r * 10;
        i = i + 1;
    }
    r
}

/// The magnitude of a mantissa.
pub fn abs_i128(m: i128) -> (r: i128)
    requires
        m != i128::MIN,
    ensures
        r == abs_int(m as int),
{
    if m < 0 {
        -m
    } else {
        m
    }
}

/// The product, unless its magnitude leaves `i128` (the minimum is also
/// rejected, so the result can always be negated).
pub fn mul_bounded(a: i128, b: i128) -> (r: Option<i128>)
    ensures
        r matches Some(v) ==> v == a * b && abs_int(a * b) <= i128::MAX,
        r is None ==> abs_int(a * b) > i128::MAX,
{
    match a.checked_mul(b) {
        Some(v) if v != i128::MIN => Some(v),
        _ => None,
    }
}

/// The sum, under the same bound as `mul_bounded`.
pub fn add_bounded(a: i128, b: i128) -> (r: Option<i128>)
    ensures
        r matches Some(v) ==> v == a + b && abs_int(a + b) <= i128::MAX,
        r is None ==> abs_int(a + b) > i128::MAX,
{
    match a.checked_add(b) {
        Some(v) if v != i128::MIN => Some(v),
        _ => None,
    }
}

/// The exact quotient of two non-negative integers rounded half to even.
pub fn div_rhe_i128(n: i128, d: i128) -> (r: i128)
    requires
        0 <= n,
        0 < d,
    ensures
        r == round_half_even(n as int, d as int),
        0 <= r,
{
    let q = n / d;
    let rem = n % d;
    if rem < d - rem {
        q
    } else if rem > d - rem {
        proof {
            lemma_div_is_ordered_by_denominator(n as int, 2, d as int);
        }
        q + 1
    } else {
        proof {
            lemma_div_is_ordered_by_denominator(n as int, 2, d as int);
        }
        if q % 2 == 0 {
            q
        } else {
            q + 1
        }
    }
}

} // verus!
