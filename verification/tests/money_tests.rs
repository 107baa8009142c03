use money2::{Currency, Decimal, Error, Money};

#[test]
fn new_normalizes() {
    let a = Decimal::new(2000, 2);
    let b = Decimal::new(20, 0);
    assert_eq!(a, b);
    assert_eq!(a.mantissa(), 20);
    assert_eq!(a.scale(), 0);
    assert_eq!(Money::new(20_00, 2, Currency::Usd), Money::new(20, 0, Currency::Usd));
}

#[test]
fn checked_add() {
    let a = Money::new(20_00, 2, Currency::Usd);
    assert_eq!(a.checked_add(Money::new(1, 0, Currency::Eur)), None);
    assert_eq!(
        a.checked_add(Money::new(5, 0, Currency::Usd)),
        Some(Money::new(25, 0, Currency::Usd))
    );
}

#[test]
fn checked_sub() {
    let a = Money::new(20_00, 2, Currency::Usd);
    assert_eq!(a.checked_sub(Money::new(1, 0, Currency::Eur)), None);
    assert_eq!(
        a.checked_sub(Money::new(5, 0, Currency::Usd)),
        Some(Money::new(15, 0, Currency::Usd))
    );
}

#[test]
fn checked_mul() {
    let a = Money::new(20_00, 2, Currency::Usd);
    assert_eq!(a.checked_mul(Money::new(1, 0, Currency::Eur)), None);
    assert_eq!(
        a.checked_mul(Money::new(2, 0, Currency::Usd)),
        Some(Money::new(40, 0, Currency::Usd))
    );
    // fractional scales multiply exactly
    assert_eq!(
        Money::new(15, 1, Currency::Usd).checked_mul(Money::new(15, 1, Currency::Usd)),
        Some(Money::new(225, 2, Currency::Usd))
    );
}

#[test]
fn checked_div() {
    let a = Money::new(20_00, 2, Currency::Usd);
    assert_eq!(a.checked_div(Money::new(1, 0, Currency::Eur)), None);
    assert_eq!(
        a.checked_div(Money::new(2, 0, Currency::Usd)),
        Some(Money::new(10, 0, Currency::Usd))
    );
    // a zero divisor is reported as an absent result, never a crash
    assert_eq!(a.checked_div(Money::new(0, 0, Currency::Usd)), None);
    // quotients carry the full twenty-eight fractional digits they have room
    // for, rounded half to even
    let third = Money::new(1, 0, Currency::Usd)
        .checked_div(Money::new(3, 0, Currency::Usd))
        .unwrap();
    assert_eq!(third.amount.mantissa(), 3333333333333333333333333333_i128);
    assert_eq!(third.amount.scale(), 28);
}

#[test]
fn checked_rem() {
    let a = Money::new(20_00, 2, Currency::Usd);
    assert_eq!(a.checked_rem(Money::new(1, 0, Currency::Eur)), None);
    assert_eq!(
        a.checked_rem(Money::new(3, 0, Currency::Usd)),
        Some(Money::new(2, 0, Currency::Usd))
    );
    assert_eq!(a.checked_rem(Money::new(0, 0, Currency::Usd)), None);
}

#[test]
fn unchecked_ops() {
    assert_eq!(
        Money::new(10, 0, Currency::Eur).add(Money::new(0_50, 2, Currency::Eur)),
        Money::new(10_50, 2, Currency::Eur)
    );
    assert_eq!(
        Money::new(10, 0, Currency::Eur).div(Money::new(2, 0, Currency::Eur)),
        Money::new(5, 0, Currency::Eur)
    );
    let mut foo = Money::new(10, 0, Currency::Eur);
    foo.add_assign(Money::new(0_50, 2, Currency::Eur));
    assert_eq!(foo, Money::new(10_50, 2, Currency::Eur));
    foo.sub_assign(Money::new(50, 2, Currency::Eur));
    assert_eq!(foo, Money::new(10, 0, Currency::Eur));
    foo.mul_assign(Money::new(3, 0, Currency::Eur));
    assert_eq!(foo, Money::new(30, 0, Currency::Eur));
    foo.div_assign(Money::new(4, 0, Currency::Eur));
    assert_eq!(foo, Money::new(7_5, 1, Currency::Eur));
    foo.rem_assign(Money::new(2, 0, Currency::Eur));
    assert_eq!(foo, Money::new(1_5, 1, Currency::Eur));
}

#[test]
fn mismatch_never_coerces() {
    let a = Money::new(10, 0, Currency::Usd);
    let b = Money::new(10, 0, Currency::Jpy);
    assert_eq!(a.checked_add(b), None);
    assert_eq!(a.checked_sub(b), None);
    assert_eq!(a.checked_mul(b), None);
    assert_eq!(a.checked_div(b), None);
    assert_eq!(a.checked_rem(b), None);
}

#[test]
fn text_round_trip() {
    for (mantissa, places, currency) in [
        (20_00_i64, 2_u32, Currency::Usd),
        (-12345, 3, Currency::Eur),
        (0, 0, Currency::Jpy),
        (5, 28, Currency::Gbp),
        (i64::MAX, 4, Currency::Chf),
        (i64::MIN + 1, 0, Currency::Sek),
    ] {
        let money = Money::new(mantissa, places, currency);
        let text = money.to_text();
        assert_eq!(Money::from_text(&text), Ok(money));
    }
}

#[test]
fn to_text_form() {
    assert_eq!(Money::new(-12345, 3, Currency::Eur).to_text(), "-12.345 EUR");
    assert_eq!(Money::new(5, 28, Currency::Gbp).to_text(), "0.0000000000000000000000000005 GBP");
    assert_eq!(Money::new(20, 0, Currency::Usd).to_text(), "20 USD");
}

#[test]
fn from_text_errors() {
    assert!(matches!(Money::from_text("20.00"), Err(Error::Decode { .. })));
    assert!(matches!(Money::from_text("x USD"), Err(Error::Decode { .. })));
    match Money::from_text("20.00 XXX") {
        Err(Error::UnsupportedCurrency(t)) => assert_eq!(t, "XXX"),
        other => panic!("unexpected: {other:?}"),
    }
    // anything after a second space is ignored
    assert_eq!(
        Money::from_text("20.00 USD extra"),
        Ok(Money::new(20_00, 2, Currency::Usd))
    );
}

#[test]
fn currency_lookup() {
    assert_eq!("usd".parse::<Currency>(), Ok(Currency::Usd));
    assert_eq!("Usd".parse::<Currency>(), Ok(Currency::Usd));
    assert_eq!("USD".parse::<Currency>(), Ok(Currency::Usd));
    assert_eq!(Currency::Eur.as_str(), "EUR");
    assert_eq!(Currency::default(), Currency::Eur);
    match "TMT".parse::<Currency>() {
        Err(Error::UnsupportedCurrency(t)) => assert_eq!(t, "TMT"),
        other => panic!("unexpected: {other:?}"),
    }
}
