use money2::{
    Cache, Currency, Date, Decimal, Error, Exchange, ExchangeRates, HistoricalExchangeRates, Money,
};

const THREE_DAYS_CSV: &str = "Date,USD,JPY\n\
                              2021-06-03,1.2187,133.81\n\
                              2021-06-07,1.3000,140.00\n\
                              2021-06-10,1.1000,130.00\n";

fn date(y: u32, m: u32, d: u32) -> Date {
    Date::new(y, m, d).unwrap()
}

#[test]
fn parse_csv_single_row() {
    // one data row; the reference currency is always present at one
    let ts = HistoricalExchangeRates::parse_csv("Date,USD,JPY\n2021-06-03,1.2187,133.81\n")
        .unwrap();
    assert_eq!(ts.len(), 1);
    let snap = HistoricalExchangeRates::index_from(&ts, Some(date(2021, 6, 3)));
    assert_eq!(snap.rate_of(Currency::Eur), Some(Decimal::new(1, 0)));
    assert_eq!(snap.rate_of(Currency::Usd), Some(Decimal::new(1_2187, 4)));
    assert_eq!(snap.rate_of(Currency::Jpy), Some(Decimal::new(133_81, 2)));
    assert_eq!(snap.rate_of(Currency::Gbp), None);

    // converting 20.00 USD at this snapshot yields 2195.95 JPY
    let twenty = Money::new(20_00, 2, Currency::Usd);
    assert_eq!(
        twenty.checked_exchange(Currency::Jpy, &snap),
        Some(Money::new(2195_95, 2, Currency::Jpy))
    );
}

#[test]
fn resolve_nearest_date() {
    let ts = HistoricalExchangeRates::parse_csv(THREE_DAYS_CSV).unwrap();
    assert_eq!(ts.len(), 3);
    // entries come out in ascending date order
    assert_eq!(ts.entry_at(0).0, date(2021, 6, 3));
    assert_eq!(ts.entry_at(1).0, date(2021, 6, 7));
    assert_eq!(ts.entry_at(2).0, date(2021, 6, 10));
    let usd_at = |d: Date| {
        HistoricalExchangeRates::get_from(&ts, Some(d))
            .unwrap()
            .rate_of(Currency::Usd)
            .unwrap()
    };
    // an exact date resolves to its own snapshot
    assert_eq!(usd_at(date(2021, 6, 7)), Decimal::new(1_3000, 4));
    // a date between two keys resolves to the earlier one
    assert_eq!(usd_at(date(2021, 6, 5)), Decimal::new(1_2187, 4));
    // a date before every key resolves to the earliest
    assert_eq!(usd_at(date(2021, 1, 1)), Decimal::new(1_2187, 4));
    // a date after every key resolves to the latest
    assert_eq!(usd_at(date(2022, 1, 1)), Decimal::new(1_1000, 4));
}

#[test]
fn resolve_empty() {
    let ts = HistoricalExchangeRates::parse_csv("Date,USD\n").unwrap();
    assert_eq!(ts.len(), 0);
    assert!(HistoricalExchangeRates::get_from(&ts, Some(date(2021, 6, 3))).is_none());
}

#[test]
fn parse_csv_policies() {
    // a malformed date drops its row; a repeated date keeps the later row
    let ts = HistoricalExchangeRates::parse_csv(
        "Date,USD\nnot-a-date,9.9\n2021-06-03,1.1\n2021-06-03,1.2\n",
    )
    .unwrap();
    assert_eq!(ts.len(), 1);
    let snap = HistoricalExchangeRates::index_from(&ts, Some(date(2021, 6, 3)));
    assert_eq!(snap.rate_of(Currency::Usd), Some(Decimal::new(1_2, 1)));

    // only an empty input misses its header row
    assert!(matches!(
        HistoricalExchangeRates::parse_csv(""),
        Err(Error::Decode { .. })
    ));
}

#[test]
fn blank_cell_keeps_other_rates() {
    // a blank cell for one currency still contributes the others
    let ts =
        HistoricalExchangeRates::parse_csv("Date,USD,JPY\n2021-06-03,,133.81\n").unwrap();
    let snap = HistoricalExchangeRates::index_from(&ts, Some(date(2021, 6, 3)));
    assert_eq!(snap.rate_of(Currency::Usd), None);
    assert_eq!(snap.rate_of(Currency::Jpy), Some(Decimal::new(133_81, 2)));
    assert_eq!(snap.rate_of(Currency::Eur), Some(Decimal::new(1, 0)));
}

#[test]
fn unknown_header_keeps_alignment() {
    // an unknown header is a placeholder: its cells are skipped, later
    // columns stay aligned
    let ts = HistoricalExchangeRates::parse_csv("Date,HRK,JPY\n2021-06-03,7.5013,133.81\n")
        .unwrap();
    let snap = HistoricalExchangeRates::index_from(&ts, Some(date(2021, 6, 3)));
    assert_eq!(snap.rate_of(Currency::Jpy), Some(Decimal::new(133_81, 2)));
}

#[test]
fn zero_rate_is_rejected() {
    // a zero rate never enters a snapshot, so no cross-rate divides by zero
    let ts = HistoricalExchangeRates::parse_csv("Date,USD\n2021-06-03,0\n").unwrap();
    let snap = HistoricalExchangeRates::index_from(&ts, Some(date(2021, 6, 3)));
    assert_eq!(snap.rate_of(Currency::Usd), None);
    assert_eq!(snap.get(&Currency::Usd, &Currency::Eur), None);
}

#[test]
fn cross_rate_identity() {
    let snap = ExchangeRates::from_csv("Date,USD,JPY\n2021-06-03,1.2187,133.81\n").unwrap();
    // a currency against itself is exactly one
    assert_eq!(
        snap.get(&Currency::Usd, &Currency::Usd),
        Some(Decimal::new(1, 0))
    );
    assert_eq!(
        snap.get(&Currency::Eur, &Currency::Eur),
        Some(Decimal::new(1, 0))
    );
    // against the reference currency the rate itself comes back
    assert_eq!(
        snap.get(&Currency::Eur, &Currency::Usd),
        Some(Decimal::new(1_2187, 4))
    );
    // a missing currency has no rate
    assert_eq!(snap.get(&Currency::Gbp, &Currency::Usd), None);
    // the range form serves the same quotient
    assert_eq!(
        snap.index(&Currency::Eur..&Currency::Usd),
        Decimal::new(1_2187, 4)
    );
}

#[test]
fn cache_refreshes_once_per_day() {
    let yesterday = date(2021, 6, 2);
    let today = date(2021, 6, 3);
    let series = || HistoricalExchangeRates::parse_csv(THREE_DAYS_CSV).unwrap();

    let mut cache = Cache::new();
    let mut fetches: u32 = 0;

    // populated yesterday
    assert!(cache.needs_refresh(yesterday));
    fetches += 1;
    cache.install(series(), yesterday);
    assert!(!cache.needs_refresh(yesterday));

    // accessed today: exactly one refresh happens
    for _ in 0..3 {
        if cache.needs_refresh(today) {
            fetches += 1;
            cache.install(series(), today);
        }
    }
    assert_eq!(fetches, 2);
    assert_eq!(cache.as_of(), Some(today));
    assert!(cache.series().is_some());
}

#[test]
fn rounds_half_to_even() {
    let snap = ExchangeRates::from_csv("Date,USD\n2021-06-03,2\n").unwrap();
    // 0.05 USD is exactly 0.025 EUR: the tie rounds to the even hundredth
    assert_eq!(
        Money::new(5, 2, Currency::Usd).checked_exchange(Currency::Eur, &snap),
        Some(Money::new(2, 2, Currency::Eur))
    );
    // 0.15 USD is exactly 0.075 EUR: this tie rounds up to the even side
    assert_eq!(
        Money::new(15, 2, Currency::Usd).checked_exchange(Currency::Eur, &snap),
        Some(Money::new(8, 2, Currency::Eur))
    );
}

#[test]
fn exchange_through_history() {
    let ts = HistoricalExchangeRates::parse_csv(THREE_DAYS_CSV).unwrap();
    let twenty = Money::new(20_00, 2, Currency::Usd);
    let got = HistoricalExchangeRates::exchange_opt_from(
        &ts,
        Some(date(2021, 6, 3)),
        Currency::Jpy,
        twenty,
    );
    assert_eq!(got, Some(Money::new(2195_95, 2, Currency::Jpy)));
    let same = HistoricalExchangeRates::exchange_from(
        &ts,
        Some(date(2021, 6, 3)),
        Currency::Jpy,
        twenty,
    );
    assert_eq!(Some(same), got);
    // the by-value form agrees with the snapshot-level exchange
    let snap = HistoricalExchangeRates::index_from(&ts, Some(date(2021, 6, 3)));
    assert_eq!(twenty.exchange(Currency::Jpy, &snap), same);
}

#[test]
fn calendar_validity() {
    // a leap day parses in a leap year and is rejected outside one
    let leap = HistoricalExchangeRates::parse_csv("Date,USD\n2024-02-29,1.1\n").unwrap();
    assert_eq!(leap.len(), 1);
    let plain = HistoricalExchangeRates::parse_csv("Date,USD\n2023-02-29,1.1\n").unwrap();
    assert_eq!(plain.len(), 0);
    // a thirty-first day exists only where the month has one
    let short = HistoricalExchangeRates::parse_csv("Date,USD\n2021-06-31,1.1\n").unwrap();
    assert_eq!(short.len(), 0);

    assert!(Date::new(2024, 2, 29).is_some());
    assert!(Date::new(2023, 2, 29).is_none());
    assert!(Date::new(2021, 13, 1).is_none());
    assert!(Date::new(0, 1, 1).is_none());
    assert!(date(2021, 6, 3).lt(date(2021, 6, 4)));
    assert!(date(2021, 6, 3).le(date(2021, 6, 3)));
    assert!(!date(2022, 1, 1).le(date(2021, 12, 31)));
}

#[test]
fn today_is_a_real_date() {
    let t = money2::today();
    assert!(1 <= t.month && t.month <= 12);
    assert!(1 <= t.day && t.day <= 31);
    assert!(1 <= t.year && t.year <= 9999);
}
