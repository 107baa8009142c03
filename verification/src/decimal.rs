//! Fixed-point decimal numbers: a mantissa together with a power-of-ten
//! scale, kept in a canonical form so that equal values are equal terms.

use crate::arith::{
    abs_i128, abs_int, add_bounded, div_rhe_i128, lemma_pow10_38, lemma_pow10_add,
    lemma_pow10_increases, lemma_pow10_pos, lemma_rhe_neg, mul_bounded, pow10, pow10_i128,
    round_half_even,
};
use vstd::arithmetic::div_mod::{lemma_fundamental_div_mod, lemma_mod_multiples_basic};
use vstd::prelude::*;

verus! {

/// The greatest scale a decimal may carry: twenty-eight fractional digits.
pub const MAX_SCALE: u32 = 28;

/// A fixed-point decimal: the value `mantissa / 10^scale`.
///
/// Values are kept canonical: the scale is at most [`MAX_SCALE`], and when
/// the scale is positive the mantissa is not divisible by ten. Every value
/// then has exactly one representation, so the derived `==` decides equality
/// of values.
#[derive(Clone, Copy, Debug, Eq, Hash, PartialEq, Structural)]
pub struct Decimal {
    mantissa: i128,
    scale: u32,
}

/// `d` stands for the value `n / 10^s`.
pub open spec fn represents(d: Decimal, n: int, s: nat) -> bool {
    d.m() * pow10(s) == n * pow10(d.s())
}

/// The canonical (trailing-zero-free) mantissa of `n / 10^s`.
pub open spec fn norm_m(n: int, s: nat) -> int
    decreases s,
{
    if s == 0 || n % 10 != 0 {
        n
    } else {
        norm_m(n / 10, (s - 1) as nat)
    }
}

/// The canonical scale of `n / 10^s`.
pub open spec fn norm_s(n: int, s: nat) -> nat
    decreases s,
{
    if s == 0 || n % 10 != 0 {
        s
    } else {
        norm_s(n / 10, (s - 1) as nat)
    }
}

impl Decimal {
    /// The mantissa, as a mathematical integer.
    pub closed spec fn m(self) -> int {
        self.mantissa as int
    }

    /// The scale: the number of fractional digits.
    pub closed spec fn s(self) -> nat {
        self.scale as nat
    }

    /// The canonical form that every constructed `Decimal` satisfies; exec
    /// code recovers it with `use_type_invariant`.
    #[verifier::type_invariant]
    pub closed spec fn inv(self) -> bool {
        self.scale <= MAX_SCALE && (self.scale > 0 ==> self.mantissa as int % 10 != 0)
            && self.mantissa != i128::MIN
    }

    /// The canonical form, stated for callers.
    pub proof fn lemma_form(self)
        requires
            self.inv(),
        ensures
            self.s() <= MAX_SCALE,
            self.s() > 0 ==> self.m() % 10 != 0,
            abs_int(self.m()) <= i128::MAX,
    {
    }

    /// Two decimals of one value are one term.
    pub proof fn lemma_value_unique(self, other: Decimal)
        requires
            self.inv(),
            other.inv(),
            self.m() * pow10(other.s()) == other.m() * pow10(self.s()),
        ensures
            self == other,
    {
        lemma_norm_unique(self.m(), self.s(), other.m(), other.s());
    }

    /// The mantissa.
    pub fn mantissa(&self) -> (r: i128)
        ensures
            r == self.m(),
    {
        self.mantissa
    }

    /// The scale.
    pub fn scale(&self) -> (r: u32)
        ensures
            r == self.s(),
    {
        self.scale
    }

    /// The decimal with value `mantissa / 10^scale`.
    pub fn new(mantissa: i64, scale: u32) -> (r: Decimal)
        requires
            scale <= MAX_SCALE,
        ensures
            represents(r, mantissa as int, scale as nat),
    {
        normalize(mantissa as i128, scale)
    }

    /// Zero.
    pub fn zero() -> (r: Decimal)
        ensures
            r.m() == 0,
            r.s() == 0,
    {
        Decimal { mantissa: 0, scale: 0 }
    }

    /// One.
    pub fn one() -> (r: Decimal)
        ensures
            r.m() == 1,
            r.s() == 0,
    {
        Decimal { mantissa: 1, scale: 0 }
    }

    /// Whether the value is zero.
    pub fn is_zero(&self) -> (r: bool)
        ensures
            r == (self.m() == 0),
    {
        self.mantissa == 0
    }

    /// The negated value.
    pub fn neg(self) -> (r: Decimal)
        ensures
            r.m() == -self.m(),
            r.s() == self.s(),
    {
        proof {
            use_type_invariant(self);
            if self.scale > 0 {
                lemma_mod_neg_stays_nonzero(self.m());
            }
        }
        Decimal { mantissa: -self.mantissa, scale: self.scale }
    }

    /// The sum, or `None` where a mantissa leaves the machine range.
    ///
    /// The operands are brought to the wider of the two scales; `None` comes
    /// exactly where widening the first operand or summing overflows.
    pub fn checked_add(self, rhs: Decimal) -> (r: Option<Decimal>)
        ensures
            r is Some <==> add_fits(self, rhs),
            r matches Some(v) ==> represents(
                v,
                self.m() * pow10(rhs.s()) + rhs.m() * pow10(self.s()),
                self.s() + rhs.s(),
            ),
    {
        proof {
            use_type_invariant(self);
            use_type_invariant(rhs);
        }
        if self.scale <= rhs.scale {
            add_aligned(self, rhs)
        } else {
            let r = add_aligned(rhs, self);
            proof {
                lemma_add_fits_sym(rhs, self);
            }
            r
        }
    }

    /// The difference, under the same bound as `checked_add`.
    pub fn checked_sub(self, rhs: Decimal) -> (r: Option<Decimal>)
        ensures
            r is Some <==> sub_fits(self, rhs),
            r matches Some(v) ==> represents(
                v,
                self.m() * pow10(rhs.s()) - rhs.m() * pow10(self.s()),
                self.s() + rhs.s(),
            ),
    {
        let nb = rhs.neg();
        let r = self.checked_add(nb);
        proof {
            assert(nb.m() * pow10(self.s()) == -(rhs.m() * pow10(self.s()))) by (nonlinear_arith)
                requires
                    nb.m() == -rhs.m(),
            ;
            if self.s() > rhs.s() {
                let k = (self.s() - rhs.s()) as nat;
                assert(nb.m() * pow10(k) == -(rhs.m() * pow10(k))) by (nonlinear_arith)
                    requires
                        nb.m() == -rhs.m(),
                ;
            }
        }
        r
    }
}

/// Whether the difference of two decimals stays within the mantissa range
/// along the alignment path, as `add_fits` for the negated second operand.
pub open spec fn sub_fits(a: Decimal, b: Decimal) -> bool {
    if a.s() <= b.s() {
        let la = a.m() * pow10((b.s() - a.s()) as nat);
        abs_int(la) <= i128::MAX && abs_int(la - b.m()) <= i128::MAX
    } else {
        let lb = b.m() * pow10((a.s() - b.s()) as nat);
        abs_int(lb) <= i128::MAX && abs_int(a.m() - lb) <= i128::MAX
    }
}

impl Decimal {
    /// The product, or `None` where the mantissa product leaves the machine
    /// range. A product scale beyond [`MAX_SCALE`] is rounded back to
    /// [`MAX_SCALE`] fractional digits, half to even.
    pub fn checked_mul(self, rhs: Decimal) -> (r: Option<Decimal>)
        ensures
            r is Some <==> abs_int(self.m() * rhs.m()) <= i128::MAX,
            r matches Some(v) ==> represents(v, mul_mantissa(self, rhs), mul_scale(self, rhs)),
    {
        proof {
            use_type_invariant(self);
            use_type_invariant(rhs);
        }
        match mul_bounded(self.mantissa, rhs.mantissa) {
            None => None,
            Some(raw) => {
                let s = self.scale + rhs.scale;
                if s <= MAX_SCALE {
                    Some(normalize(raw, s))
                } else {
                    let k = s - MAX_SCALE;
                    let d = pow10_i128(k);
                    proof {
                        lemma_pow10_pos(k as nat);
                    }
                    let mag = abs_i128(raw);
                    let q = div_rhe_i128(mag, d);
                    let m = if raw < 0 {
                        -q
                    } else {
                        q
                    };
                    proof {
                        if raw < 0 {
                            lemma_rhe_neg(mag as int, d as int);
                        }
                    }
                    Some(normalize(m, MAX_SCALE))
                }
            },
        }
    }

    /// The remainder of truncating division, at the wider of the two scales;
    /// it takes the sign of the dividend. `None` where the divisor is zero or
    /// widening overflows.
    pub fn checked_rem(self, rhs: Decimal) -> (r: Option<Decimal>)
        ensures
            r is Some <==> (rhs.m() != 0 && rem_fits(self, rhs)),
            r matches Some(v) ==> represents(
                v,
                trunc_rem(
                    self.m() * pow10((max_scale(self, rhs) - self.s()) as nat),
                    rhs.m() * pow10((max_scale(self, rhs) - rhs.s()) as nat),
                ),
                max_scale(self, rhs),
            ),
    {
        proof {
            use_type_invariant(self);
            use_type_invariant(rhs);
        }
        let (la, lb, s) = if self.scale <= rhs.scale {
            let p = pow10_i128(rhs.scale - self.scale);
            match mul_bounded(self.mantissa, p) {
                None => {
                    return None;
                },
                Some(la) => (la, rhs.mantissa, rhs.scale),
            }
        } else {
            let p = pow10_i128(self.scale - rhs.scale);
            match mul_bounded(rhs.mantissa, p) {
                None => {
                    return None;
                },
                Some(lb) => (self.mantissa, lb, self.scale),
            }
        };
        proof {
            lemma_pow10_pos((max_scale(self, rhs) - self.s()) as nat);
            lemma_pow10_pos((max_scale(self, rhs) - rhs.s()) as nat);
            assert(self.m() * pow10(0) == self.m());
            assert(rhs.m() * pow10(0) == rhs.m());
            if rhs.m() != 0 {
                let p = pow10((max_scale(self, rhs) - rhs.s()) as nat);
                assert(rhs.m() * p != 0) by (nonlinear_arith)
                    requires
                        rhs.m() != 0,
                        p >= 1,
                ;
            }
        }
        if lb == 0 {
            return None;
        }
        let ra = abs_i128(la);
        let rb = abs_i128(lb);
        let rem = ra % rb;
        let m = if la < 0 {
            -rem
        } else {
            rem
        };
        Some(normalize(m, s))
    }
}

impl Decimal {
    /// The quotient, rounded half to even at the quotient's scale: the
    /// scale uses whatever [`MAX_SCALE`] significant digits the integer part
    /// of the quotient leaves free. `None` where the divisor is zero or the
    /// magnitudes leave the machine range.
    pub fn checked_div(self, rhs: Decimal) -> (r: Option<Decimal>)
        ensures
            r is Some <==> (rhs.m() != 0 && div_fits(self, rhs)),
            r matches Some(v) ==> represents(v, div_mantissa(self, rhs), div_scale(self, rhs)),
    {
        proof {
            use_type_invariant(self);
            use_type_invariant(rhs);
        }
        if rhs.mantissa == 0 {
            return None;
        }
        proof {
            lemma_pow10_pos(rhs.s());
            lemma_pow10_pos(self.s());
            assert(div_num(self, rhs) >= 0 && abs_int(div_num(self, rhs)) == div_num(self, rhs)
                && div_den(self, rhs) >= 1 && abs_int(div_den(self, rhs)) == div_den(self, rhs))
                by (nonlinear_arith)
                requires
                    abs_int(self.m()) >= 0,
                    abs_int(rhs.m()) >= 1,
                    pow10(rhs.s()) >= 1,
                    pow10(self.s()) >= 1,
                    div_num(self, rhs) == abs_int(self.m()) * pow10(rhs.s()),
                    div_den(self, rhs) == abs_int(rhs.m()) * pow10(self.s()),
            ;
        }
        let n = match mul_bounded(abs_i128(self.mantissa), pow10_i128(rhs.scale)) {
            None => {
                return None;
            },
            Some(n) => n,
        };
        let d = match mul_bounded(abs_i128(rhs.mantissa), pow10_i128(self.scale)) {
            None => {
                return None;
            },
            Some(d) => d,
        };
        if d > i128::MAX / 10 {
            return None;
        }
        let q0 = n / d;
        let s = quot_scale_exec(q0);
        let ghost gl: nat = if q0 == 0 {
            0
        } else {
            len10(q0 as int)
        };
        proof {
            lemma_pow10_38();
            if q0 > 0 {
                lemma_len10_bound(q0 as int);
            } else {
                assert(q0 < pow10(gl));
            }
            lemma_fundamental_div_mod(n as int, d as int);
            assert(pow10(0) == 1);
            assert((n as int) * pow10(0) == n);
        }
        let mut q = q0;
        let mut rem = n % d;
        let mut i: u32 = 0;
        while i < s
            invariant
                0 <= i <= s,
                0 <= rem < d,
                d >= 1,
                d <= i128::MAX / 10,
                q >= 0,
                d * q + rem == n * pow10(i as nat),
                q < pow10(gl + i as nat),
                s > 0 ==> gl + s as nat <= MAX_SCALE,
                pow10(38) <= i128::MAX,
            decreases s - i,
        {
            proof {
                lemma_pow10_increases(gl + (i + 1) as nat, 38);
                lemma_pow10_pos(gl + i as nat);
            }
            let t = (rem * 10) / d;
            let rem2 = (rem * 10) % d;
            proof {
                lemma_fundamental_div_mod(rem * 10, d as int);
                assert(t <= 9) by (nonlinear_arith)
                    requires
                        d * t + rem2 == rem * 10,
                        0 <= rem < d,
                        0 <= rem2,
                        d >= 1,
                        t == (rem * 10) / (d as int),
                ;
                assert(q * 10 + t < pow10(gl + (i + 1) as nat)) by (nonlinear_arith)
                    requires
                        q < pow10(gl + i as nat),
                        pow10(gl + (i + 1) as nat) == 10 * pow10(gl + i as nat),
                        t <= 9,
                        q >= 0,
                ;
                assert(d * (q * 10 + t) + rem2 == n * pow10((i + 1) as nat)) by (nonlinear_arith)
                    requires
                        d * q + rem == n * pow10(i as nat),
                        d * t + rem2 == rem * 10,
                        pow10((i + 1) as nat) == 10 * pow10(i as nat),
                ;
            }
            q = q * 10 + t;
            rem = rem2;
            i = i + 1;
        }
        proof {
            lemma_pow10_pos(gl + s as nat);
            crate::arith::lemma_div_mod_unique(
                (n as int) * pow10(s as nat),
                d as int,
                q as int,
                rem as int,
            );
            if s > 0 {
                lemma_pow10_increases(gl + s as nat, 38);
            } else {
                assert(q < pow10(gl + 0));
                if d >= 2 {
                    vstd::arithmetic::div_mod::lemma_div_is_ordered_by_denominator(
                        n as int,
                        2,
                        d as int,
                    );
                    vstd::arithmetic::div_mod::lemma_div_is_ordered(
                        n as int,
                        i128::MAX as int,
                        2,
                    );
                }
            }
        }
        let mag = if rem < d - rem {
            q
        } else if rem > d - rem {
            q + 1
        } else if q % 2 == 0 {
            q
        } else {
            q + 1
        };
        let m = if (self.mantissa < 0) != (rhs.mantissa < 0) {
            -mag
        } else {
            mag
        };
        proof {
            if (self.m() < 0) != (rhs.m() < 0) {
                lemma_rhe_neg((n as int) * pow10(s as nat), d as int);
            }
        }
        Some(normalize(m, s))
    }
}

/// The magnitude of the dividend, widened by the divisor's scale.
pub open spec fn div_num(a: Decimal, b: Decimal) -> int {
    abs_int(a.m()) * pow10(b.s())
}

/// The magnitude of the divisor, widened by the dividend's scale.
pub open spec fn div_den(a: Decimal, b: Decimal) -> int {
    abs_int(b.m()) * pow10(a.s())
}

/// Whether a quotient can be computed: both widened magnitudes must stay in
/// machine range, the divisor with room for one more digit.
pub open spec fn div_fits(a: Decimal, b: Decimal) -> bool {
    div_num(a, b) <= i128::MAX && div_den(a, b) <= i128::MAX / 10
}

/// The quotient's scale.
pub open spec fn div_scale(a: Decimal, b: Decimal) -> nat
    recommends
        b.m() != 0,
{
    quot_scale(div_num(a, b) / div_den(a, b))
}

/// The quotient's mantissa: the exact quotient of the magnitudes, rounded
/// half to even at the quotient's scale, with the signs' product.
pub open spec fn div_mantissa(a: Decimal, b: Decimal) -> int
    recommends
        b.m() != 0,
{
    let mag = round_half_even(div_num(a, b) * pow10(div_scale(a, b)), div_den(a, b));
    if (a.m() < 0) != (b.m() < 0) {
        -mag
    } else {
        mag
    }
}

/// The scale left for a quotient whose integer part is `q0`: all of
/// [`MAX_SCALE`] below one, otherwise what `q0`'s digits leave of it.
pub open spec fn quot_scale(q0: int) -> nat
    recommends
        q0 >= 0,
{
    if q0 == 0 {
        MAX_SCALE as nat
    } else if len10(q0) >= MAX_SCALE {
        0
    } else {
        (MAX_SCALE - len10(q0)) as nat
    }
}

/// The number of decimal digits of a non-negative integer.
pub open spec fn len10(n: int) -> nat
    recommends
        n >= 0,
    decreases n,
{
    if n < 10 {
        1
    } else {
        1 + len10(n / 10)
    }
}

/// A number is below ten to its digit count.
pub proof fn lemma_len10_bound(n: int)
    requires
        n >= 0,
    ensures
        n < pow10(len10(n)),
    decreases n,
{
    assert(pow10(0) == 1);
    assert(pow10(1) == 10);
    if n < 10 {
    } else {
        lemma_len10_bound(n / 10);
        lemma_fundamental_div_mod(n, 10);
        let k = len10(n / 10);
        assert(pow10(k + 1) == 10 * pow10(k));
        assert(n < 10 * pow10(k)) by (nonlinear_arith)
            requires
                n / 10 < pow10(k),
                n == 10 * (n / 10) + n % 10,
                0 <= n % 10 < 10,
        ;
    }
}

/// The scale of a quotient's integer part.
fn quot_scale_exec(q0: i128) -> (s: u32)
    requires
        q0 >= 0,
    ensures
        s == quot_scale(q0 as int),
        s <= MAX_SCALE,
        q0 > 0 ==> len10(q0 as int) + s >= MAX_SCALE,
{
    if q0 == 0 {
        MAX_SCALE
    } else {
        let l = len10_exec(q0);
        if l >= MAX_SCALE {
            0
        } else {
            MAX_SCALE - l
        }
    }
}

/// The number of decimal digits.
fn len10_exec(n: i128) -> (l: u32)
    requires
        n >= 1,
    ensures
        l == len10(n as int),
        1 <= l <= 39,
{
    let mut x = n;
    let mut l: u32 = 1;
    while x >= 10
        invariant
            1 <= x,
            1 <= l <= 39,
            len10(n as int) == (l - 1) + len10(x as int),
            pow10((l - 1) as nat) * x <= n,
        decreases x,
    {
        proof {
            lemma_fundamental_div_mod(x as int, 10);
            lemma_pow10_pos((l - 1) as nat);
            assert(pow10(l as nat) * ((x as int) / 10) <= pow10((l - 1) as nat) * x)
                by (nonlinear_arith)
                requires
                    pow10(l as nat) == 10 * pow10((l - 1) as nat),
                    10 * ((x as int) / 10) <= x,
                    pow10((l - 1) as nat) >= 1,
            ;
            if l >= 39 {
                lemma_pow10_38();
                lemma_pow10_increases(39, (l - 1) as nat);
                assert(pow10((l - 1) as nat) * ((x as int) / 10) >= pow10((l - 1) as nat))
                    by (nonlinear_arith)
                    requires
                        (x as int) / 10 >= 1,
                        pow10((l - 1) as nat) >= 1,
                ;
                assert(false);
            }
        }
        x = x / 10;
        l = l + 1;
    }
    l
}

/// The wider of the two scales.
pub open spec fn max_scale(a: Decimal, b: Decimal) -> nat {
    if a.s() <= b.s() {
        b.s()
    } else {
        a.s()
    }
}

/// The product's scale: the sum of the scales, capped at [`MAX_SCALE`].
pub open spec fn mul_scale(a: Decimal, b: Decimal) -> nat {
    if a.s() + b.s() <= MAX_SCALE {
        a.s() + b.s()
    } else {
        MAX_SCALE as nat
    }
}

/// The product's mantissa: rounded half to even where the scale was capped.
pub open spec fn mul_mantissa(a: Decimal, b: Decimal) -> int {
    let raw = a.m() * b.m();
    if a.s() + b.s() <= MAX_SCALE {
        raw
    } else {
        round_half_even(raw, pow10((a.s() + b.s() - MAX_SCALE) as nat))
    }
}

/// The remainder of truncating integer division: the magnitude is the
/// remainder of the magnitudes, the sign is the dividend's.
pub open spec fn trunc_rem(a: int, b: int) -> int {
    let r = abs_int(a) % abs_int(b);
    if a >= 0 {
        r
    } else {
        -r
    }
}

/// Whether widening the narrower operand to the wider scale stays within the
/// mantissa range.
pub open spec fn rem_fits(a: Decimal, b: Decimal) -> bool {
    if a.s() <= b.s() {
        abs_int(a.m() * pow10((b.s() - a.s()) as nat)) <= i128::MAX
    } else {
        abs_int(b.m() * pow10((a.s() - b.s()) as nat)) <= i128::MAX
    }
}

/// Whether the sum of two decimals stays within the mantissa range along the
/// alignment path (the narrower operand is widened to the wider scale).
pub open spec fn add_fits(a: Decimal, b: Decimal) -> bool {
    if a.s() <= b.s() {
        let la = a.m() * pow10((b.s() - a.s()) as nat);
        abs_int(la) <= i128::MAX && abs_int(la + b.m()) <= i128::MAX
    } else {
        let lb = b.m() * pow10((a.s() - b.s()) as nat);
        abs_int(lb) <= i128::MAX && abs_int(lb + a.m()) <= i128::MAX
    }
}

proof fn lemma_add_fits_sym(a: Decimal, b: Decimal)
    requires
        a.inv(),
        b.inv(),
    ensures
        add_fits(a, b) == add_fits(b, a),
{
    if a.s() == b.s() {
        assert(a.m() * pow10(0) == a.m());
        assert(b.m() * pow10(0) == b.m());
    }
}

/// The sum for `a.s() <= b.s()`: widen `a`, add mantissas, keep `b`'s scale.
fn add_aligned(a: Decimal, b: Decimal) -> (r: Option<Decimal>)
    requires
        a.inv(),
        b.inv(),
        a.s() <= b.s(),
    ensures
        r is Some <==> add_fits(a, b),
        r matches Some(v) ==> represents(v, a.m() * pow10(b.s()) + b.m() * pow10(a.s()), a.s() + b.s()),
{
    let p = pow10_i128(b.scale - a.scale);
    match mul_bounded(a.mantissa, p) {
        None => None,
        Some(la) => match add_bounded(la, b.mantissa) {
            None => None,
            Some(m) => {
                let v = normalize(m, b.scale);
                proof {
                    let k = (b.s() - a.s()) as nat;
                    let n = a.m() * pow10(b.s()) + b.m() * pow10(a.s());
                    // v.m * 10^b.s == m * 10^v.s, and m * 10^a.s == n
                    lemma_pow10_add(a.s(), k);
                    assert((a.m() * pow10(k)) * pow10(a.s()) == a.m() * pow10(b.s()))
                        by (nonlinear_arith)
                        requires
                            pow10(b.s()) == pow10(a.s()) * pow10(k),
                    ;
                    assert(m * pow10(a.s()) == n) by (nonlinear_arith)
                        requires
                            m == a.m() * pow10(k) + b.m(),
                            (a.m() * pow10(k)) * pow10(a.s()) == a.m() * pow10(b.s()),
                            n == a.m() * pow10(b.s()) + b.m() * pow10(a.s()),
                    ;
                    assert((v.m() * pow10(b.s())) * pow10(a.s()) == (m * pow10(a.s())) * pow10(
                        v.s(),
                    )) by (nonlinear_arith)
                        requires
                            v.m() * pow10(b.s()) == m * pow10(v.s()),
                    ;
                    lemma_pow10_add(a.s(), b.s());
                    lemma_pow10_pos(a.s());
                    assert(v.m() * pow10(a.s() + b.s()) == n * pow10(v.s())) by (nonlinear_arith)
                        requires
                            (v.m() * pow10(b.s())) * pow10(a.s()) == (m * pow10(a.s())) * pow10(
                                v.s(),
                            ),
                            m * pow10(a.s()) == n,
                            pow10(a.s() + b.s()) == pow10(a.s()) * pow10(b.s()),
                    ;
                }
                Some(v)
            },
        },
    }
}

/// A nonzero residue mod ten stays nonzero under negation.
proof fn lemma_mod_neg_stays_nonzero(m: int)
    requires
        m % 10 != 0,
    ensures
        (-m) % 10 != 0,
{
    lemma_fundamental_div_mod(m, 10);
    let q = m / 10;
    let r = m % 10;
    assert(-m == 10 * (-q - 1) + (10 - r)) by (nonlinear_arith)
        requires
            m == 10 * q + r,
    ;
    crate::arith::lemma_div_mod_unique(-m, 10, -q - 1, 10 - r);
}

/// The canonical decimal of value `n / 10^s`, at spec level.
pub closed spec fn spec_dec(n: int, s: nat) -> Decimal {
    Decimal { mantissa: norm_m(n, s) as i128, scale: norm_s(n, s) as u32 }
}

/// What `spec_dec` yields on in-range arguments: a canonical decimal of the
/// given value.
pub proof fn lemma_spec_dec(n: int, s: nat)
    requires
        s <= MAX_SCALE,
        abs_int(n) <= i128::MAX,
    ensures
        spec_dec(n, s).inv(),
        represents(spec_dec(n, s), n, s),
        spec_dec(n, s).m() == norm_m(n, s),
        spec_dec(n, s).s() == norm_s(n, s),
{
    lemma_norm_represents(n, s);
    lemma_pow10_pos(s);
    lemma_pow10_pos(norm_s(n, s));
}

/// A canonical decimal is its own canonical form.
pub proof fn lemma_spec_dec_canonical(d: Decimal)
    requires
        d.inv(),
    ensures
        spec_dec(d.m(), d.s()) == d,
{
    assert(norm_m(d.m(), d.s()) == d.m());
    assert(norm_s(d.m(), d.s()) == d.s());
}

/// The canonical decimal of value `n / 10^s`.
pub(crate) fn normalize(m: i128, s: u32) -> (r: Decimal)
    requires
        s <= MAX_SCALE,
        m != i128::MIN,
    ensures
        r.m() == norm_m(m as int, s as nat),
        r.s() == norm_s(m as int, s as nat),
        represents(r, m as int, s as nat),
        r == spec_dec(m as int, s as nat),
{
    let mut cm = m;
    let mut cs = s;
    while cs > 0 && cm % 10 == 0
        invariant
            cs <= MAX_SCALE,
            cm != i128::MIN,
            norm_m(cm as int, cs as nat) == norm_m(m as int, s as nat),
            norm_s(cm as int, cs as nat) == norm_s(m as int, s as nat),
        decreases cs,
    {
        cm = cm / 10;
        cs = cs - 1;
    }
    proof {
        lemma_norm_represents(m as int, s as nat);
        lemma_pow10_pos(s as nat);
        lemma_pow10_pos(norm_s(m as int, s as nat));
    }
    Decimal { mantissa: cm, scale: cs }
}

/// Normalisation keeps the value: `norm_m(n,s) / 10^norm_s(n,s) == n / 10^s`.
pub proof fn lemma_norm_represents(n: int, s: nat)
    ensures
        norm_m(n, s) * pow10(s) == n * pow10(norm_s(n, s)),
        norm_s(n, s) <= s,
        abs_int(norm_m(n, s)) <= abs_int(n),
        norm_s(n, s) > 0 ==> norm_m(n, s) % 10 != 0,
        norm_m(n, s) == 0 ==> norm_s(n, s) == 0,
    decreases s,
{
    if s == 0 || n % 10 != 0 {
    } else {
        lemma_norm_represents(n / 10, (s - 1) as nat);
        lemma_fundamental_div_mod(n, 10);
        let n1 = n / 10;
        let s1 = (s - 1) as nat;
        assert(n == 10 * n1);
        assert(norm_m(n, s) == norm_m(n1, s1));
        assert(norm_s(n, s) == norm_s(n1, s1));
        assert(pow10(s) == 10 * pow10(s1));
        assert(norm_m(n1, s1) * (10 * pow10(s1)) == (10 * n1) * pow10(norm_s(n1, s1)))
            by (nonlinear_arith)
            requires
                norm_m(n1, s1) * pow10(s1) == n1 * pow10(norm_s(n1, s1)),
        ;
        assert(abs_int(n1) <= abs_int(n)) by (nonlinear_arith)
            requires
                n == 10 * n1,
        ;
    }
}

/// Canonical forms of one value are identical.
proof fn lemma_norm_unique(m1: int, s1: nat, m2: int, s2: nat)
    requires
        s1 > 0 ==> m1 % 10 != 0,
        s2 > 0 ==> m2 % 10 != 0,
        m1 * pow10(s2) == m2 * pow10(s1),
    ensures
        m1 == m2,
        s1 == s2,
{
    lemma_pow10_pos(s1);
    lemma_pow10_pos(s2);
    if s1 < s2 {
        lemma_scale_gap_divisible(m1, s1, m2, s2);
    } else if s2 < s1 {
        lemma_scale_gap_divisible(m2, s2, m1, s1);
    } else {
        assert(m1 == m2) by (nonlinear_arith)
            requires
                m1 * pow10(s2) == m2 * pow10(s1),
                s1 == s2,
                pow10(s1) >= 1,
        ;
    }
}

/// A mantissa at a strictly greater scale sharing the value is divisible by
/// ten, so it cannot be canonical.
proof fn lemma_scale_gap_divisible(m1: int, s1: nat, m2: int, s2: nat)
    requires
        s1 < s2,
        m1 * pow10(s2) == m2 * pow10(s1),
    ensures
        m2 % 10 == 0,
{
    lemma_pow10_pos(s1);
    let k = (s2 - s1) as nat;
    lemma_pow10_add(s1, k);
    assert((m1 * pow10(k)) * pow10(s1) == m2 * pow10(s1)) by (nonlinear_arith)
        requires
            m1 * (pow10(s1) * pow10(k)) == m2 * pow10(s1),
    ;
    assert(m2 == m1 * pow10(k)) by (nonlinear_arith)
        requires
            (m1 * pow10(k)) * pow10(s1) == m2 * pow10(s1),
            pow10(s1) >= 1,
    ;
    assert(pow10(k) == 10 * pow10((k - 1) as nat));
    assert(m2 == (m1 * pow10((k - 1) as nat)) * 10) by (nonlinear_arith)
        requires
            m2 == m1 * (10 * pow10((k - 1) as nat)),
    ;
    lemma_mod_multiples_basic(m1 * pow10((k - 1) as nat), 10);
}

} // verus!
