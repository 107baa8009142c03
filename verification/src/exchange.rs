//! Quantities that are relative to a currency and can be restated in another
//! one using a snapshot of exchange rates.

use crate::currency::Currency;
use crate::money::{exchangeable_spec, exchanged_spec, Money};
use crate::rates::ExchangeRates;
use vstd::prelude::*;

verus! {

/// Implementors contain quantities relative to the [`Currency`] they are
/// currently in; to view them in another currency they are exchanged with
/// the rates of a snapshot.
pub trait Exchange: Sized {
    /// Whether the exchange into `currency` is defined for this value.
    spec fn exchangeable(self, currency: Currency, rates: ExchangeRates) -> bool;

    /// Whether `r` is this value exchanged into `currency`.
    spec fn exchanged_to(self, currency: Currency, rates: ExchangeRates, r: Self) -> bool;

    /// Exchange the quantity into `currency` in place, using `rates`.
    fn exchange_mut(&mut self, currency: Currency, rates: &ExchangeRates)
        requires
            old(self).exchangeable(currency, *rates),
        ensures
            old(self).exchanged_to(currency, *rates, *final(self)),
    ;

    /// Exchange the quantity into `currency` using `rates`. Derived from the
    /// `exchange_mut` implementation.
    fn exchange(self, currency: Currency, rates: &ExchangeRates) -> (r: Self)
        requires
            self.exchangeable(currency, *rates),
        ensures
            self.exchanged_to(currency, *rates, r),
    {
        let mut s = self;
        s.exchange_mut(currency, rates);
        s
    }
}

impl Exchange for Money {
    open spec fn exchangeable(self, currency: Currency, rates: ExchangeRates) -> bool {
        exchangeable_spec(self, currency, rates)
    }

    open spec fn exchanged_to(self, currency: Currency, rates: ExchangeRates, r: Money) -> bool {
        r == exchanged_spec(self, currency, rates)
    }

    /// The result is rounded to two decimal places, half to even.
    fn exchange_mut(&mut self, currency: Currency, rates: &ExchangeRates) {
        match (*self).checked_exchange(currency, rates) {
            Some(v) => {
                *self = v;
            },
            None => {
                proof {
                    assert(false);
                }
            },
        }
    }
}

impl<T: Exchange> Exchange for Vec<T> {
    open spec fn exchangeable(self, currency: Currency, rates: ExchangeRates) -> bool {
        forall|i: int|
            0 <= i < self@.len() ==> (#[trigger] self@[i]).exchangeable(currency, rates)
    }

    open spec fn exchanged_to(self, currency: Currency, rates: ExchangeRates, r: Vec<T>) -> bool {
        r@.len() == self@.len() && forall|i: int|
            0 <= i < self@.len() ==> (#[trigger] self@[i]).exchanged_to(currency, rates, r@[i])
    }

    fn exchange_mut(&mut self, currency: Currency, rates: &ExchangeRates) {
        let ghost orig = self@;
        let mut out: Vec<T> = Vec::new();
        while self.len() > 0
            invariant
                out@.len() + self@.len() == orig.len(),
                forall|i: int| 0 <= i < self@.len() ==> #[trigger] self@[i] == orig[out@.len() + i],
                forall|i: int|
                    0 <= i < out@.len() ==> orig[i].exchanged_to(currency, *rates, #[trigger] out@[i]),
                forall|i: int|
                    0 <= i < orig.len() ==> (#[trigger] orig[i]).exchangeable(currency, *rates),
            decreases self@.len(),
        {
            let ghost k = out@.len() as int;
            let ghost before = self@;
            let e = self.remove(0);
            let e2 = e.exchange(currency, rates);
            out.push(e2);
            proof {
                assert(self@ =~= before.remove(0));
                let ghost ol = out@.len() as int;
                assert forall|i: int| 0 <= i < self@.len() implies #[trigger] self@[i] == orig[ol
                    + i] by {
                    assert(self@[i] == before[i + 1]);
                }
            }
        }
        *self = out;
    }
}

} // verus!
