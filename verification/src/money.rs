//! An amount of a currency, with currency-checked fixed-point arithmetic:
//! combining two amounts is defined only when their currencies agree.

use crate::arith::{
    abs_i128, abs_int, lemma_rhe_neg, mul_bounded, pow10, pow10_i128, round_half_even,
};
use crate::csv::split_spec;
use crate::currency::{currency_of, Currency};
use crate::decimal::{
    add_fits, div_fits, div_mantissa, div_scale, max_scale, mul_mantissa, mul_scale, normalize,
    rem_fits, represents, spec_dec, sub_fits, trunc_rem, Decimal, MAX_SCALE,
};
use crate::error::Error;
use crate::rates::ExchangeRates;
use crate::text::{dec_text_spec, parse_decimal, parse_decimal_spec};
use vstd::prelude::*;
use vstd::string::StringExecFns;

verus! {

/// An amount of a currency.
///
/// No operation here ever coerces between currencies; conversion happens
/// only through an exchange-rate snapshot.
#[derive(Clone, Copy, Debug, Eq, Hash, PartialEq, Structural)]
pub struct Money {
    /// The amount.
    pub amount: Decimal,
    /// The currency the amount is in.
    pub currency: Currency,
}

impl Money {
    /// The amount `amount / 10^decimal_places` of `currency`.
    pub fn new(amount: i64, decimal_places: u32, currency: Currency) -> (r: Money)
        requires
            decimal_places <= MAX_SCALE,
        ensures
            r.currency == currency,
            represents(r.amount, amount as int, decimal_places as nat),
    {
        Money { amount: Decimal::new(amount, decimal_places), currency }
    }

    /// The sum: `None` on differing currencies or mantissa overflow, and
    /// only there.
    pub fn checked_add(self, rhs: Money) -> (r: Option<Money>)
        ensures
            r is Some <==> (self.currency == rhs.currency && add_fits(self.amount, rhs.amount)),
            r matches Some(v) ==> v.currency == self.currency && represents(
                v.amount,
                self.amount.m() * pow10(rhs.amount.s()) + rhs.amount.m() * pow10(self.amount.s()),
                self.amount.s() + rhs.amount.s(),
            ),
    {
        if self.currency == rhs.currency {
            match self.amount.checked_add(rhs.amount) {
                Some(amount) => Some(Money { amount, currency: self.currency }),
                None => None,
            }
        } else {
            None
        }
    }

    /// The difference, under the rules of `checked_add`.
    pub fn checked_sub(self, rhs: Money) -> (r: Option<Money>)
        ensures
            r is Some <==> (self.currency == rhs.currency && sub_fits(self.amount, rhs.amount)),
            r matches Some(v) ==> v.currency == self.currency && represents(
                v.amount,
                self.amount.m() * pow10(rhs.amount.s()) - rhs.amount.m() * pow10(self.amount.s()),
                self.amount.s() + rhs.amount.s(),
            ),
    {
        if self.currency == rhs.currency {
            match self.amount.checked_sub(rhs.amount) {
                Some(amount) => Some(Money { amount, currency: self.currency }),
                None => None,
            }
        } else {
            None
        }
    }

    /// The product: `None` on differing currencies or mantissa overflow, and
    /// only there.
    pub fn checked_mul(self, rhs: Money) -> (r: Option<Money>)
        ensures
            r is Some <==> (self.currency == rhs.currency && abs_int(
                self.amount.m() * rhs.amount.m(),
            ) <= i128::MAX),
            r matches Some(v) ==> v.currency == self.currency && represents(
                v.amount,
                mul_mantissa(self.amount, rhs.amount),
                mul_scale(self.amount, rhs.amount),
            ),
    {
        if self.currency == rhs.currency {
            match self.amount.checked_mul(rhs.amount) {
                Some(amount) => Some(Money { amount, currency: self.currency }),
                None => None,
            }
        } else {
            None
        }
    }

    /// The quotient: `None` on differing currencies, a zero divisor or
    /// overflow, and only there.
    pub fn checked_div(self, rhs: Money) -> (r: Option<Money>)
        ensures
            r is Some <==> (self.currency == rhs.currency && rhs.amount.m() != 0 && div_fits(
                self.amount,
                rhs.amount,
            )),
            r matches Some(v) ==> v.currency == self.currency && represents(
                v.amount,
                div_mantissa(self.amount, rhs.amount),
                div_scale(self.amount, rhs.amount),
            ),
    {
        if self.currency == rhs.currency {
            match self.amount.checked_div(rhs.amount) {
                Some(amount) => Some(Money { amount, currency: self.currency }),
                None => None,
            }
        } else {
            None
        }
    }

    /// The remainder: `None` on differing currencies, a zero divisor or
    /// overflow, and only there.
    pub fn checked_rem(self, rhs: Money) -> (r: Option<Money>)
        ensures
            r is Some <==> (self.currency == rhs.currency && rhs.amount.m() != 0 && rem_fits(
                self.amount,
                rhs.amount,
            )),
            r matches Some(v) ==> v.currency == self.currency && represents(
                v.amount,
                trunc_rem(
                    self.amount.m() * pow10(
                        (max_scale(self.amount, rhs.amount) - self.amount.s()) as nat,
                    ),
                    rhs.amount.m() * pow10(
                        (max_scale(self.amount, rhs.amount) - rhs.amount.s()) as nat,
                    ),
                ),
                max_scale(self.amount, rhs.amount),
            ),
    {
        if self.currency == rhs.currency {
            match self.amount.checked_rem(rhs.amount) {
                Some(amount) => Some(Money { amount, currency: self.currency }),
                None => None,
            }
        } else {
            None
        }
    }

    /// The sum, for callers that can rule failure out beforehand.
    pub fn add(self, rhs: Money) -> (r: Money)
        requires
            self.currency == rhs.currency,
            add_fits(self.amount, rhs.amount),
        ensures
            r.currency == self.currency,
            represents(
                r.amount,
                self.amount.m() * pow10(rhs.amount.s()) + rhs.amount.m() * pow10(self.amount.s()),
                self.amount.s() + rhs.amount.s(),
            ),
    {
        match self.checked_add(rhs) {
            Some(v) => v,
            None => {
                proof {
                    assert(false);
                }
                self
            },
        }
    }

    /// The difference, for callers that can rule failure out beforehand.
    pub fn sub(self, rhs: Money) -> (r: Money)
        requires
            self.currency == rhs.currency,
            sub_fits(self.amount, rhs.amount),
        ensures
            r.currency == self.currency,
            represents(
                r.amount,
                self.amount.m() * pow10(rhs.amount.s()) - rhs.amount.m() * pow10(self.amount.s()),
                self.amount.s() + rhs.amount.s(),
            ),
    {
        match self.checked_sub(rhs) {
            Some(v) => v,
            None => {
                proof {
                    assert(false);
                }
                self
            },
        }
    }

    /// The product, for callers that can rule failure out beforehand.
    pub fn mul(self, rhs: Money) -> (r: Money)
        requires
            self.currency == rhs.currency,
            abs_int(self.amount.m() * rhs.amount.m()) <= i128::MAX,
        ensures
            r.currency == self.currency,
            represents(
                r.amount,
                mul_mantissa(self.amount, rhs.amount),
                mul_scale(self.amount, rhs.amount),
            ),
    {
        match self.checked_mul(rhs) {
            Some(v) => v,
            None => {
                proof {
                    assert(false);
                }
                self
            },
        }
    }

    /// The quotient, for callers that can rule failure out beforehand.
    pub fn div(self, rhs: Money) -> (r: Money)
        requires
            self.currency == rhs.currency,
            rhs.amount.m() != 0,
            div_fits(self.amount, rhs.amount),
        ensures
            r.currency == self.currency,
            represents(
                r.amount,
                div_mantissa(self.amount, rhs.amount),
                div_scale(self.amount, rhs.amount),
            ),
    {
        match self.checked_div(rhs) {
            Some(v) => v,
            None => {
                proof {
                    assert(false);
                }
                self
            },
        }
    }


    /// Add in place, for callers that can rule failure out beforehand.
    pub fn add_assign(&mut self, rhs: Money)
        requires
            old(self).currency == rhs.currency,
            add_fits(old(self).amount, rhs.amount),
        ensures
            final(self).currency == old(self).currency,
            represents(
                final(self).amount,
                old(self).amount.m() * pow10(rhs.amount.s()) + rhs.amount.m() * pow10(
                    old(self).amount.s(),
                ),
                old(self).amount.s() + rhs.amount.s(),
            ),
    {
        *self = (*self).add(rhs);
    }

    /// Subtract in place, for callers that can rule failure out beforehand.
    pub fn sub_assign(&mut self, rhs: Money)
        requires
            old(self).currency == rhs.currency,
            sub_fits(old(self).amount, rhs.amount),
        ensures
            final(self).currency == old(self).currency,
            represents(
                final(self).amount,
                old(self).amount.m() * pow10(rhs.amount.s()) - rhs.amount.m() * pow10(
                    old(self).amount.s(),
                ),
                old(self).amount.s() + rhs.amount.s(),
            ),
    {
        *self = (*self).sub(rhs);
    }

    /// Multiply in place, for callers that can rule failure out beforehand.
    pub fn mul_assign(&mut self, rhs: Money)
        requires
            old(self).currency == rhs.currency,
            abs_int(old(self).amount.m() * rhs.amount.m()) <= i128::MAX,
        ensures
            final(self).currency == old(self).currency,
            represents(
                final(self).amount,
                mul_mantissa(old(self).amount, rhs.amount),
                mul_scale(old(self).amount, rhs.amount),
            ),
    {
        *self = (*self).mul(rhs);
    }

    /// Divide in place, for callers that can rule failure out beforehand.
    pub fn div_assign(&mut self, rhs: Money)
        requires
            old(self).currency == rhs.currency,
            rhs.amount.m() != 0,
            div_fits(old(self).amount, rhs.amount),
        ensures
            final(self).currency == old(self).currency,
            represents(
                final(self).amount,
                div_mantissa(old(self).amount, rhs.amount),
                div_scale(old(self).amount, rhs.amount),
            ),
    {
        *self = (*self).div(rhs);
    }

    /// Take the remainder in place, for callers that can rule failure out
    /// beforehand.
    pub fn rem_assign(&mut self, rhs: Money)
        requires
            old(self).currency == rhs.currency,
            rhs.amount.m() != 0,
            rem_fits(old(self).amount, rhs.amount),
        ensures
            final(self).currency == old(self).currency,
            represents(
                final(self).amount,
                trunc_rem(
                    old(self).amount.m() * pow10(
                        (max_scale(old(self).amount, rhs.amount) - old(self).amount.s()) as nat,
                    ),
                    rhs.amount.m() * pow10(
                        (max_scale(old(self).amount, rhs.amount) - rhs.amount.s()) as nat,
                    ),
                ),
                max_scale(old(self).amount, rhs.amount),
            ),
    {
        *self = (*self).rem(rhs);
    }

    /// The amount restated in `currency`: a no-op on the same currency, and
    /// otherwise the exact product of the amount with the cross-rate
    /// `rate(currency) / rate(self.currency)`, rounded half to even at two
    /// decimal places.
    ///
    /// `None` exactly where the snapshot misses either currency or a
    /// magnitude leaves the machine range.
    pub fn checked_exchange(self, currency: Currency, rates: &ExchangeRates) -> (r: Option<Money>)
        ensures
            r is Some <==> exchangeable_spec(self, currency, *rates),
            r matches Some(v) ==> v == exchanged_spec(self, currency, *rates),
    {
        if self.currency == currency {
            return Some(self);
        }
        proof {
            use_type_invariant(&*rates);
            rates.lemma_rate_positive(self.currency);
            rates.lemma_rate_positive(currency);
            use_type_invariant(self.amount);
        }
        let rc = match rates.rate_of(self.currency) {
            Some(rc) => rc,
            None => {
                return None;
            },
        };
        let rd = match rates.rate_of(currency) {
            Some(rd) => rd,
            None => {
                return None;
            },
        };
        proof {
            rc.lemma_form();
            rd.lemma_form();
            self.amount.lemma_form();
            lemma_conv_parts_nonneg(self.amount, rc, rd);
        }
        let am = abs_i128(self.amount.mantissa());
        let m1 = match mul_bounded(am, rd.mantissa()) {
            Some(x) => x,
            None => {
                return None;
            },
        };
        let n1 = match mul_bounded(m1, pow10_i128(rc.scale())) {
            Some(x) => x,
            None => {
                return None;
            },
        };
        let n = match mul_bounded(n1, 100) {
            Some(x) => x,
            None => {
                return None;
            },
        };
        let d1 = match mul_bounded(rc.mantissa(), pow10_i128(rd.scale())) {
            Some(x) => x,
            None => {
                return None;
            },
        };
        let d = match mul_bounded(d1, pow10_i128(self.amount.scale())) {
            Some(x) => x,
            None => {
                return None;
            },
        };
        let q = crate::arith::div_rhe_i128(n, d);
        let m = if self.amount.mantissa() < 0 {
            -q
        } else {
            q
        };
        proof {
            if self.amount.m() < 0 {
                lemma_rhe_neg(n as int, d as int);
                assert(conv_num(self.amount, rc, rd) == -(n as int)) by (nonlinear_arith)
                    requires
                        n as int == (abs_int(self.amount.m()) * rd.m()) * pow10(rc.s()) * 100,
                        abs_int(self.amount.m()) == -self.amount.m(),
                        conv_num(self.amount, rc, rd) == self.amount.m() * rd.m() * pow10(rc.s())
                            * 100,
                ;
            }
        }
        Some(Money { amount: normalize(m, 2), currency })
    }

    /// The remainder, for callers that can rule failure out beforehand.
    pub fn rem(self, rhs: Money) -> (r: Money)
        requires
            self.currency == rhs.currency,
            rhs.amount.m() != 0,
            rem_fits(self.amount, rhs.amount),
        ensures
            r.currency == self.currency,
            represents(
                r.amount,
                trunc_rem(
                    self.amount.m() * pow10(
                        (max_scale(self.amount, rhs.amount) - self.amount.s()) as nat,
                    ),
                    rhs.amount.m() * pow10(
                        (max_scale(self.amount, rhs.amount) - rhs.amount.s()) as nat,
                    ),
                ),
                max_scale(self.amount, rhs.amount),
            ),
    {
        match self.checked_rem(rhs) {
            Some(v) => v,
            None => {
                proof {
                    assert(false);
                }
                self
            },
        }
    }
}

/// The exact numerator of a conversion of `a` by the cross-rate `rd / rc`,
/// carried to two decimal places: `a.m * rd.m * 10^rc.s * 100`.
pub open spec fn conv_num(a: Decimal, rc: Decimal, rd: Decimal) -> int {
    a.m() * rd.m() * pow10(rc.s()) * 100
}

/// The exact denominator of that conversion: `rc.m * 10^rd.s * 10^a.s`.
pub open spec fn conv_den(a: Decimal, rc: Decimal, rd: Decimal) -> int {
    rc.m() * pow10(rd.s()) * pow10(a.s())
}

/// The converted amount in hundredths: the exact rational
/// `a * (rd / rc) * 100` rounded half to even.
pub open spec fn conv_mantissa(a: Decimal, rc: Decimal, rd: Decimal) -> int {
    round_half_even(conv_num(a, rc, rd), conv_den(a, rc, rd))
}

/// Whether the conversion's staged magnitudes all stay within the machine
/// range, in the order the computation forms them.
pub open spec fn conv_fits(a: Decimal, rc: Decimal, rd: Decimal) -> bool {
    let m1 = abs_int(a.m()) * rd.m();
    let n1 = m1 * pow10(rc.s());
    let n = n1 * 100;
    let d1 = rc.m() * pow10(rd.s());
    let d = d1 * pow10(a.s());
    m1 <= i128::MAX && n1 <= i128::MAX && n <= i128::MAX && d1 <= i128::MAX && d <= i128::MAX
}

/// Whether exchanging `v` into `to` is defined: a no-op, or both rates
/// present with the computation in range.
pub open spec fn exchangeable_spec(v: Money, to: Currency, rates: ExchangeRates) -> bool {
    v.currency == to || match (rates.rate_spec(v.currency), rates.rate_spec(to)) {
        (Some(rc), Some(rd)) => conv_fits(v.amount, rc, rd),
        _ => false,
    }
}

/// The value `v` exchanged into `to`: unchanged on the same currency, and
/// otherwise the rounded conversion at two decimal places.
pub open spec fn exchanged_spec(v: Money, to: Currency, rates: ExchangeRates) -> Money {
    if v.currency == to {
        v
    } else {
        match (rates.rate_spec(v.currency), rates.rate_spec(to)) {
            (Some(rc), Some(rd)) => Money {
                amount: spec_dec(conv_mantissa(v.amount, rc, rd), 2),
                currency: to,
            },
            _ => v,
        }
    }
}

/// Arithmetic never crosses currencies: on differing currencies every
/// checked operation reports the mismatch with an absent result, whatever
/// the amounts; nothing is ever coerced.
pub proof fn lemma_mismatch_never_coerces(a: Money, b: Money, r: Option<Money>)
    requires
        a.currency != b.currency,
    ensures
        call_ensures(Money::checked_add, (a, b), r) ==> r is None,
        call_ensures(Money::checked_sub, (a, b), r) ==> r is None,
        call_ensures(Money::checked_mul, (a, b), r) ==> r is None,
        call_ensures(Money::checked_div, (a, b), r) ==> r is None,
        call_ensures(Money::checked_rem, (a, b), r) ==> r is None,
{
}

/// Exchanging into the currency an amount is already in changes nothing, so
/// a round trip over one currency alone is exact.
pub proof fn lemma_exchange_same_currency(v: Money, rates: ExchangeRates)
    ensures
        exchanged_spec(v, v.currency, rates) == v,
{
}

/// A round trip `A -> B -> A` lands within one hundredth of the original
/// value, whenever the cross-rate on the way out is at least one: each leg
/// rounds by at most half a hundredth of its target, and coming back the
/// outbound error shrinks. The bound is stated in hundredths: the returned
/// mantissa `c2` (at two decimal places) differs from the exact original,
/// brought to hundredths, by at most one unit.
pub proof fn lemma_exchange_round_trip(
    v: Money,
    to: Currency,
    rates: ExchangeRates,
    ra: Decimal,
    rb: Decimal,
)
    requires
        v.amount.inv(),
        ra.inv(),
        rb.inv(),
        ra.m() > 0,
        rb.m() > 0,
        v.currency != to,
        rates.rate_spec(v.currency) == Some(ra),
        rates.rate_spec(to) == Some(rb),
        rb.m() * pow10(ra.s()) >= ra.m() * pow10(rb.s()),
        conv_fits(v.amount, ra, rb),
    ensures
        ({
            let c1 = conv_mantissa(v.amount, ra, rb);
            let m1 = exchanged_spec(v, to, rates);
            let c2 = conv_mantissa(m1.amount, rb, ra);
            m1.currency == to && m1.amount == spec_dec(c1, 2) && abs_int(
                c2 * pow10(v.amount.s()) - v.amount.m() * 100,
            ) <= pow10(v.amount.s())
        }),
{
    let vm = v.amount.m();
    let vs = v.amount.s();
    let f = ra.m() * pow10(rb.s());
    let t = rb.m() * pow10(ra.s());
    crate::arith::lemma_pow10_pos(ra.s());
    crate::arith::lemma_pow10_pos(rb.s());
    crate::arith::lemma_pow10_pos(vs);
    assert(f >= 1 && t >= 1) by (nonlinear_arith)
        requires
            ra.m() >= 1,
            rb.m() >= 1,
            pow10(ra.s()) >= 1,
            pow10(rb.s()) >= 1,
            f == ra.m() * pow10(rb.s()),
            t == rb.m() * pow10(ra.s()),
    ;
    let n1 = conv_num(v.amount, ra, rb);
    let d1 = conv_den(v.amount, ra, rb);
    let c1 = conv_mantissa(v.amount, ra, rb);
    assert(n1 == vm * t * 100 && d1 == f * pow10(vs)) by (nonlinear_arith)
        requires
            n1 == vm * rb.m() * pow10(ra.s()) * 100,
            d1 == ra.m() * pow10(rb.s()) * pow10(vs),
            f == ra.m() * pow10(rb.s()),
            t == rb.m() * pow10(ra.s()),
    ;
    assert(d1 >= 1) by (nonlinear_arith)
        requires
            d1 == f * pow10(vs),
            f >= 1,
            pow10(vs) >= 1,
    ;
    // the first leg's mantissa is in machine range, so it has a canonical form
    assert(abs_int(n1) <= i128::MAX) by (nonlinear_arith)
        requires
            n1 == vm * rb.m() * pow10(ra.s()) * 100,
            abs_int(vm) * rb.m() * pow10(ra.s()) * 100 <= i128::MAX,
            rb.m() >= 1,
            pow10(ra.s()) >= 1,
    ;
    crate::arith::lemma_rhe_bound(n1, d1, i128::MAX as int);
    crate::decimal::lemma_spec_dec(c1, 2);
    let a1 = spec_dec(c1, 2);
    let m1 = exchanged_spec(v, to, rates);
    assert(m1 == Money { amount: a1, currency: to });
    crate::arith::lemma_pow10_pos(a1.s());
    // the second leg sees only the value of `a1`: scale the quotient twice
    let n2 = conv_num(a1, rb, ra);
    let d2 = conv_den(a1, rb, ra);
    let c2 = conv_mantissa(a1, rb, ra);
    let p1 = pow10(a1.s());
    assert(a1.m() * pow10(2) == c1 * p1);
    assert(pow10(2) == 100) by {
        reveal_with_fuel(pow10, 4);
    }
    assert(d2 >= 1) by (nonlinear_arith)
        requires
            d2 == rb.m() * pow10(ra.s()) * p1,
            rb.m() >= 1,
            pow10(ra.s()) >= 1,
            p1 >= 1,
    ;
    crate::arith::lemma_rhe_scale(n2, d2, 100);
    assert(n2 * 100 == (c1 * f * 100) * p1 && d2 * 100 == (t * 100) * p1) by (nonlinear_arith)
        requires
            n2 == a1.m() * ra.m() * pow10(rb.s()) * 100,
            d2 == rb.m() * pow10(ra.s()) * p1,
            a1.m() * 100 == c1 * p1,
            f == ra.m() * pow10(rb.s()),
            t == rb.m() * pow10(ra.s()),
    ;
    assert(t * 100 >= 1) by (nonlinear_arith)
        requires
            t >= 1,
    ;
    crate::arith::lemma_rhe_scale(c1 * f * 100, t * 100, p1);
    crate::arith::lemma_rhe_scale(c1 * f, t, 100);
    assert((c1 * f) * 100 == c1 * f * 100 && (t) * 100 == t * 100);
    assert(c2 == round_half_even(c1 * f, t));
    // error of each leg, by the rounding bound
    crate::arith::lemma_rhe_error(n1, d1);
    crate::arith::lemma_rhe_error(c1 * f, t);
    let p = pow10(vs);
    let x = c2 * t * p - c1 * f * p;
    let y = c1 * f * p - vm * 100 * t;
    // the outbound error, in hundredths of the original currency
    assert(2 * abs_int(y) <= f * p) by (nonlinear_arith)
        requires
            2 * abs_int(c1 * d1 - n1) <= d1,
            d1 == f * p,
            n1 == vm * t * 100,
            y == c1 * f * p - vm * 100 * t,
            c1 * d1 - n1 == c1 * (f * p) - vm * t * 100,
    ;
    // the return error, scaled to the same denominator
    assert(2 * abs_int(x) <= t * p) by (nonlinear_arith)
        requires
            2 * abs_int(round_half_even(c1 * f, t) * t - c1 * f) <= t,
            c2 == round_half_even(c1 * f, t),
            x == c2 * t * p - c1 * f * p,
            p >= 1,
    ;
    assert(f * p <= t * p) by (nonlinear_arith)
        requires
            f <= t,
            p >= 1,
    ;
    assert(abs_int(x + y) <= abs_int(x) + abs_int(y));
    assert((c2 * p - vm * 100) * t == x + y) by (nonlinear_arith)
        requires
            x == c2 * t * p - c1 * f * p,
            y == c1 * f * p - vm * 100 * t,
    ;
    assert(abs_int(c2 * p - vm * 100) <= p) by (nonlinear_arith)
        requires
            abs_int((c2 * p - vm * 100) * t) <= t * p,
            t >= 1,
            p >= 1,
    ;
}

/// The staged magnitudes of a conversion are non-negative, and its
/// denominator is positive.
proof fn lemma_conv_parts_nonneg(a: Decimal, rc: Decimal, rd: Decimal)
    requires
        rc.m() > 0,
        rd.m() > 0,
    ensures
        abs_int(a.m()) * rd.m() >= 0,
        abs_int(a.m()) * rd.m() * pow10(rc.s()) >= 0,
        abs_int(a.m()) * rd.m() * pow10(rc.s()) * 100 >= 0,
        rc.m() * pow10(rd.s()) >= 1,
        conv_den(a, rc, rd) >= 1,
        a.m() >= 0 ==> conv_num(a, rc, rd) == abs_int(a.m()) * rd.m() * pow10(rc.s()) * 100,
{
    crate::arith::lemma_pow10_pos(rc.s());
    crate::arith::lemma_pow10_pos(rd.s());
    crate::arith::lemma_pow10_pos(a.s());
    assert(abs_int(a.m()) * rd.m() >= 0 && abs_int(a.m()) * rd.m() * pow10(rc.s()) >= 0 && abs_int(
        a.m(),
    ) * rd.m() * pow10(rc.s()) * 100 >= 0 && rc.m() * pow10(rd.s()) >= 1 && (rc.m() * pow10(
        rd.s(),
    )) * pow10(a.s()) >= 1) by (nonlinear_arith)
        requires
            abs_int(a.m()) >= 0,
            rc.m() >= 1,
            rd.m() >= 1,
            pow10(rc.s()) >= 1,
            pow10(rd.s()) >= 1,
            pow10(a.s()) >= 1,
    ;
}

/// The text of an amount: the decimal, one space, the currency code.
pub open spec fn money_text_spec(m: Money) -> Seq<char> {
    dec_text_spec(m.amount) + seq![' '] + m.currency.code()
}

/// The currency token of a money text: what stands between the first space
/// and the next.
pub open spec fn money_token(s: Seq<char>) -> Seq<char> {
    let i = crate::csv::find_char(s, ' ');
    let rest = s.subrange(i + 1, s.len() as int);
    let k = crate::csv::find_char(rest, ' ');
    if k < 0 {
        rest
    } else {
        rest.subrange(0, k)
    }
}

/// What a money text denotes: a decimal amount, one space, and a supported
/// currency code; anything after a second space is ignored.
pub open spec fn parse_money_spec(s: Seq<char>) -> Option<Money> {
    let i = crate::csv::find_char(s, ' ');
    if i < 0 {
        None
    } else {
        match (parse_decimal_spec(s.subrange(0, i)), currency_of(money_token(s))) {
            (Some(a), Some(c)) => Some(Money { amount: a, currency: c }),
            _ => None,
        }
    }
}

impl Money {
    /// Render as text: the amount, a space, and the uppercase code.
    pub fn to_text(&self) -> (r: String)
        ensures
            r@ == money_text_spec(*self),
    {
        proof {
            reveal_strlit(" ");
        }
        let mut out = crate::text::decimal_to_text(&self.amount);
        out.append(" ");
        out.append(self.currency.as_str());
        proof {
            assert(out@ =~= money_text_spec(*self));
        }
        out
    }

    /// Parse a money text: exactly the strings that [`parse_money_spec`]
    /// accepts yield an amount. A text with no space has no currency field;
    /// a first field that is no decimal literal fails as such; an unknown
    /// code names itself in the error.
    pub fn from_text(s: &str) -> (r: Result<Money, Error>)
        ensures
            r matches Ok(m) ==> parse_money_spec(s@) == Some(m),
            r is Ok <==> parse_money_spec(s@) is Some,
            r matches Err(e) ==> parse_money_spec(s@) is None && ({
                let i = crate::csv::find_char(s@, ' ');
                if i < 0 {
                    e is Decode
                } else if parse_decimal_spec(s@.subrange(0, i)) is None {
                    e is Decode
                } else {
                    e matches Error::UnsupportedCurrency(t) && t@ == money_token(s@)
                }
            }),
    {
        let parts = crate::csv::split_char(s, ' ');
        proof {
            crate::csv::lemma_find_char(s@, ' ');
            let i = crate::csv::find_char(s@, ' ');
            if i >= 0 {
                let rest = s@.subrange(i + 1, s@.len() as int);
                crate::csv::lemma_find_char(rest, ' ');
                crate::csv::lemma_split_nonempty(rest, ' ');
                assert(split_spec(s@, ' ')[0] == s@.subrange(0, i));
                assert(split_spec(s@, ' ')[1] == split_spec(rest, ' ')[0]);
                assert(split_spec(rest, ' ')[0] == money_token(s@));
            }
        }
        if parts.len() < 2 {
            return Err(no_field_error(s, "currency"));
        }
        let amount = match parse_decimal(parts[0]) {
            Some(a) => a,
            None => {
                return Err(bad_amount_error(s));
            },
        };
        match Currency::reverse_lookup(parts[1]) {
            Some(currency) => Ok(Money { amount, currency }),
            None => Err(Error::UnsupportedCurrency(parts[1].to_owned())),
        }
    }
}

impl core::str::FromStr for Money {
    type Err = Error;

    fn from_str(s: &str) -> Result<Money, Error> {
        Money::from_text(s)
    }
}

/// The decode error for a money text missing a field.
fn no_field_error(s: &str, field: &str) -> (r: Error)
    ensures
        r is Decode,
{
    proof {
        reveal_strlit("\"");
        reveal_strlit("\" into money");
        reveal_strlit("there was no ");
    }
    let mut context = String::from_str("\"");
    context.append(s);
    context.append("\" into money");
    let mut reason = String::from_str("there was no ");
    reason.append(field);
    Error::Decode { context, reason }
}

/// The decode error for a money text whose first field is no decimal.
fn bad_amount_error(s: &str) -> (r: Error)
    ensures
        r is Decode,
{
    proof {
        reveal_strlit("\"");
        reveal_strlit("\" into money");
        reveal_strlit("the amount is not a decimal");
    }
    let mut context = String::from_str("\"");
    context.append(s);
    context.append("\" into money");
    Error::Decode { context, reason: String::from_str("the amount is not a decimal") }
}

/// Rendering an amount as text and parsing the text back yields the very
/// same amount, for every mantissa a 64-bit construction can carry.
pub proof fn lemma_money_text_round_trip(m: Money)
    requires
        m.amount.inv(),
        crate::arith::abs_int(m.amount.m()) <= i64::MAX,
    ensures
        parse_money_spec(money_text_spec(m)) == Some(m),
{
    let t = money_text_spec(m);
    let dt = dec_text_spec(m.amount);
    let code = m.currency.code();
    let ld = dt.len() as int;
    crate::text::lemma_dec_text_no_space(m.amount);
    crate::text::lemma_dec_text_round_trip(m.amount);
    crate::currency::lemma_codes_upper(m.currency);
    crate::currency::lemma_code_spells_itself(m.currency);
    assert(t[ld] == ' ');
    assert forall|j: int| 0 <= j < ld implies t[j] != ' ' by {
        assert(t[j] == dt[j]);
    }
    crate::csv::lemma_find_char_at(t, ' ', ld);
    assert(t.subrange(0, ld) =~= dt);
    let rest = t.subrange(ld + 1, t.len() as int);
    assert(rest =~= code);
    assert forall|j: int| 0 <= j < rest.len() implies rest[j] != ' ' by {
        assert(65 <= code[j] as u32 <= 90);
    }
    crate::csv::lemma_find_char_none(rest, ' ');
    assert(money_token(t) == code);
}

} // verus!
