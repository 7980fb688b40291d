//! A continuous-auction order matching engine for limit-order-book markets.
//!
//! Orders carry a symbol, a side, a price in integer ticks and a quantity in
//! integer units.  Crossing orders are matched under strict price-time
//! priority; matches produce a stream of executions; market-data products
//! (top-of-book snapshots, recent executions, rolling statistics and OHLCV
//! candles) are derived from the execution flow.

pub mod models;
pub mod price_level;
pub mod book;
pub mod order_book;
pub mod matching_engine;
pub mod ids;
pub mod clock;
pub mod laws;
pub mod sequencer;
pub mod strings;
pub mod candlestick;
pub mod market_data;
pub mod serializer;
pub mod relay;
pub mod trading;

use vstd::prelude::*;

verus! {

/// The smallest of two quantities: the amount a single match step can move.
pub open spec fn spec_min_u64(a: u64, b: u64) -> u64 {
    if a <= b {
        a
    } else {
        b
    }
}

/// Executable counterpart of [`spec_min_u64`].
pub fn min_u64(a: u64, b: u64) -> (r: u64)
    ensures
        r == spec_min_u64(a, b),
{
    if a <= b {
        a
    } else {
        b
    }
}

} // verus!
