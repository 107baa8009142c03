use money2::{Currency, Exchange, ExchangeMut, ExchangeRates, Money};

const SAMPLE_EXCHANGE_RATES_CSV: &str =
    "Date, USD, JPY, BGN, CZK, DKK, GBP, HUF, PLN, RON, SEK, CHF, ISK, NOK, HRK, RUB, TRY, AUD, \
     BRL, CAD, CNY, HKD, IDR, ILS, INR, KRW, MXN, MYR, NZD, PHP, SGD, THB, ZAR, \n03 June 2021, \
     1.2187, 133.81, 1.9558, 25.448, 7.4365, 0.85955, 345.82, 4.4520, 4.9220, 10.1145, 1.0961, \
     146.30, 10.1501, 7.5013, 89.2163, 10.5650, 1.5792, 6.1894, 1.4710, 7.7910, 9.4551, 17420.91, \
     3.9598, 88.8755, 1357.75, 24.3300, 5.0241, 1.6915, 58.208, 1.6141, 37.938, 16.5218, ";

#[test]
fn exchange_exchange() {
    let rates: ExchangeRates = SAMPLE_EXCHANGE_RATES_CSV.parse().unwrap();

    let mut money = vec![
        Money::new(1750, 0, Currency::Jpy),
        Money::new(20_00, 2, Currency::Usd),
    ];

    let exchanged = money.clone().exchange(Default::default(), &rates);

    Exchange::exchange_mut(&mut money, Default::default(), &rates);
    money
        .into_iter()
        .zip(exchanged.into_iter())
        .for_each(|(lhs, rhs)| {
            assert_eq!(lhs, rhs);
            assert_eq!(lhs.currency, Currency::Eur);
        });
}

#[test]
fn exchange_mut_exchange() {
    let rates: ExchangeRates = SAMPLE_EXCHANGE_RATES_CSV.parse().unwrap();

    let mut money = vec![
        Money::new(1750, 0, Currency::Jpy),
        Money::new(20_00, 2, Currency::Usd),
    ];

    ExchangeMut::exchange_mut(&mut money, Default::default(), &rates);
    money.into_iter().for_each(|m| {
        assert_eq!(m.currency, Default::default());
    });
}

#[test]
fn exchange() {
    let exchange_rates = SAMPLE_EXCHANGE_RATES_CSV.parse::<ExchangeRates>().unwrap();

    let usd = Money::new(20_00, 2, Currency::Usd);

    let usd_to_jpy = usd.exchange(Currency::Jpy, &exchange_rates);
    assert_eq!(usd_to_jpy, Money::new(2195_95, 2, Currency::Jpy));

    // Assert round-trip works
    let usd_to_jpy_to_usd = usd_to_jpy.exchange(Currency::Usd, &exchange_rates);
    assert_eq!(usd, usd_to_jpy_to_usd);
}

#[test]
fn checked_exchange_missing_currency() {
    let rates = ExchangeRates::from_csv("Date,USD\n2021-06-03,1.2187\n").unwrap();
    let money = Money::new(10_00, 2, Currency::Jpy);
    assert_eq!(money.checked_exchange(Currency::Usd, &rates), None);
    assert_eq!(
        money.checked_exchange(Currency::Jpy, &rates),
        Some(Money::new(10_00, 2, Currency::Jpy))
    );
}
