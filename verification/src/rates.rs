//! A snapshot of exchange rates: for each supported currency, at most one
//! positive rate relative to the reference currency (the euro), so that an
//! amount of euros multiplied by a currency's rate yields that currency.

use crate::currency::{Currency, CURRENCY_COUNT};
use crate::decimal::{div_fits, div_mantissa, div_scale, represents, Decimal};
use core::ops::Range;
use vstd::prelude::*;

verus! {

/// An immutable snapshot of exchange rates, all relative to the euro.
///
/// Rates are kept positive: a zero or negative cell never enters a snapshot,
/// so a cross-rate never divides by zero.
#[derive(Debug)]
pub struct ExchangeRates {
    rates: Vec<Option<Decimal>>,
}

impl ExchangeRates {
    /// One slot for every currency; every stored rate is canonical and
    /// positive.
    #[verifier::type_invariant]
    pub closed spec fn inv(self) -> bool {
        self.rates@.len() == CURRENCY_COUNT && forall|i: int|
            0 <= i < self.rates@.len() ==> ((#[trigger] self.rates@[i]) matches Some(d) ==> d.inv()
                && d.m() > 0)
    }

    /// The rate stored for `c`, if any.
    pub closed spec fn rate_spec(self, c: Currency) -> Option<Decimal> {
        self.rates@[c.index_spec()]
    }

    /// Every stored rate is canonical and positive.
    pub proof fn lemma_rate_positive(self, c: Currency)
        requires
            self.inv(),
        ensures
            self.rate_spec(c) matches Some(d) ==> d.inv() && d.m() > 0,
    {
        assert(0 <= c.index_spec() < CURRENCY_COUNT);
    }

    /// A snapshot with no rates at all.
    pub(crate) fn empty() -> (r: ExchangeRates)
        ensures
            forall|c: Currency| #[trigger] r.rate_spec(c) is None,
    {
        let mut rates: Vec<Option<Decimal>> = Vec::new();
        let mut i: usize = 0;
        while i < CURRENCY_COUNT
            invariant
                rates@.len() == i,
                i <= CURRENCY_COUNT,
                forall|j: int| 0 <= j < i ==> (#[trigger] rates@[j]) is None,
            decreases CURRENCY_COUNT - i,
        {
            rates.push(None);
            i = i + 1;
        }
        ExchangeRates { rates }
    }

    /// The snapshot with `c`'s rate set to `d` and every other rate kept.
    pub(crate) fn with_rate(self, c: Currency, d: Decimal) -> (r: ExchangeRates)
        requires
            d.m() > 0,
        ensures
            r.rate_spec(c) == Some(d),
            forall|c2: Currency| c2 != c ==> #[trigger] r.rate_spec(c2) == self.rate_spec(c2),
    {
        proof {
            use_type_invariant(&self);
            use_type_invariant(&d);
        }
        let ghost old_self = self;
        let mut rates = self.rates;
        let i = c.index();
        rates.set(i, Some(d));
        let r = ExchangeRates { rates };
        proof {
            assert forall|c2: Currency| c2 != c implies #[trigger] r.rate_spec(c2)
                == old_self.rate_spec(c2) by {
                if c2.index_spec() == c.index_spec() {
                    lemma_index_injective(c, c2);
                }
            }
        }
        r
    }

    /// The rate of `c` relative to the euro, or `None` where the snapshot
    /// does not cover `c`.
    pub fn rate_of(&self, c: Currency) -> (r: Option<Decimal>)
        ensures
            r == self.rate_spec(c),
    {
        proof {
            use_type_invariant(&*self);
        }
        self.rates[c.index()]
    }

    /// The factor converting an amount of `current` into `desired`: the
    /// quotient of `desired`'s rate by `current`'s.
    ///
    /// `None` exactly where the snapshot misses either currency or the
    /// quotient's magnitudes leave the machine range; a currency against
    /// itself is exactly one.
    pub fn get(&self, current: &Currency, desired: &Currency) -> (r: Option<Decimal>)
        ensures
            match (self.rate_spec(*current), self.rate_spec(*desired)) {
                (Some(rc), Some(rd)) => if *current == *desired {
                    r matches Some(v) && v.m() == 1 && v.s() == 0
                } else if div_fits(rd, rc) {
                    r matches Some(v) && represents(v, div_mantissa(rd, rc), div_scale(rd, rc))
                } else {
                    r is None
                },
                _ => r is None,
            },
    {
        proof {
            use_type_invariant(&*self);
            self.lemma_rate_positive(*current);
            self.lemma_rate_positive(*desired);
        }
        match (self.rate_of(*current), self.rate_of(*desired)) {
            (Some(rc), Some(rd)) => {
                if *current == *desired {
                    Some(Decimal::one())
                } else {
                    rd.checked_div(rc)
                }
            },
            _ => None,
        }
    }

    /// As [`ExchangeRates::get`], for callers that can rule absence and
    /// overflow out beforehand.
    pub fn index(&self, range: Range<&Currency>) -> (r: Decimal)
        requires
            match (self.rate_spec(*range.start), self.rate_spec(*range.end)) {
                (Some(rc), Some(rd)) => *range.start == *range.end || div_fits(rd, rc),
                _ => false,
            },
        ensures
            match (self.rate_spec(*range.start), self.rate_spec(*range.end)) {
                (Some(rc), Some(rd)) => if *range.start == *range.end {
                    r.m() == 1 && r.s() == 0
                } else {
                    represents(r, div_mantissa(rd, rc), div_scale(rd, rc))
                },
                _ => false,
            },
    {
        proof {
            use_type_invariant(&*self);
            self.lemma_rate_positive(*range.start);
        }
        match self.get(range.start, range.end) {
            Some(v) => v,
            None => {
                proof {
                    assert(false);
                }
                Decimal::zero()
            },
        }
    }

    /// An exact copy of the snapshot.
    pub fn duplicate(&self) -> (r: ExchangeRates)
        ensures
            forall|c: Currency| #[trigger] r.rate_spec(c) == self.rate_spec(c),
    {
        proof {
            use_type_invariant(&*self);
        }
        let mut rates: Vec<Option<Decimal>> = Vec::new();
        let mut i: usize = 0;
        while i < CURRENCY_COUNT
            invariant
                rates@.len() == i,
                i <= CURRENCY_COUNT,
                self.rates@.len() == CURRENCY_COUNT,
                forall|j: int| 0 <= j < i ==> #[trigger] rates@[j] == self.rates@[j],
                forall|j: int|
                    0 <= j < self.rates@.len() ==> ((#[trigger] self.rates@[j]) matches Some(d)
                        ==> d.inv() && d.m() > 0),
            decreases CURRENCY_COUNT - i,
        {
            rates.push(self.rates[i]);
            i = i + 1;
        }
        ExchangeRates { rates }
    }
}

/// Distinct currencies sit at distinct table positions.
proof fn lemma_index_injective(a: Currency, b: Currency)
    requires
        a.index_spec() == b.index_spec(),
    ensures
        a == b,
{
}

} // verus!
