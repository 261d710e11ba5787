//! A single-process limit order matching core.
//!
//! Resting (limit) orders are grouped into price-level buckets with exact,
//! fixed-point prices; incoming market orders drain resting liquidity in
//! price priority. A thin routing layer maps a trading pair to its own
//! independent order book.

pub mod engine;
pub mod orderbook;
pub mod price;

pub use price::Price;
