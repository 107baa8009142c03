//! Exchange-rate aware money arithmetic.
//!
//! Monetary amounts are fixed-point decimals tagged with an ISO-4217
//! currency code. Exchange-rate snapshots are parsed from the European
//! Central Bank's wide-format CSV feed, where every rate is expressed
//! relative to the euro, and conversions between currencies round
//! half-to-even to two decimal places.

mod arith;
mod cache;
mod clock;
mod csv;
mod currency;
mod date;
mod decimal;
mod error;
mod exchange;
mod exchange_mut;
mod heading;
mod historical;
mod money;
mod rates;
mod series;
mod text;

pub use arith::round_half_even;
pub use cache::Cache;
pub use clock::today;
pub use currency::Currency;
pub use date::Date;
pub use decimal::Decimal;
pub use error::Error;
pub use exchange::Exchange;
pub use exchange_mut::ExchangeMut;
pub use heading::Heading;
pub use historical::HistoricalExchangeRates;
pub use money::Money;
pub use rates::ExchangeRates;
pub use series::TimeSeries;
