//! Data carried through the simulation.
//!
//! The seed dataset supplies one record per instrument; the simulation reads
//! only the ticker and the open/close pair, the remaining fields are carried
//! through untouched. All prices are held as IEEE-754 double bit patterns,
//! which is also exactly how they travel on the wire.

use vstd::prelude::*;

verus! {

/// One instrument from the seed dataset, immutable for the whole run.
///
/// `open_bits`, `close_bits`, `high_bits`, `low_bits`, `volume_bits` and
/// `day_bits` hold the IEEE-754 bit patterns of the corresponding doubles
/// of the seed record; the simulation reads only the ticker and the
/// open/close pair.
#[derive(Clone, Debug)]
pub struct Stock {
    pub ticker: String,
    pub volume_bits: u64,
    pub open_bits: u64,
    pub close_bits: u64,
    pub high_bits: u64,
    pub low_bits: u64,
    pub day_bits: u64,
}

/// The seed dataset as delivered by the market-data provider.
#[derive(Clone, Debug)]
pub struct StockResponse {
    pub query_count: u64,
    pub results_count: u64,
    pub adjusted: bool,
    pub results: Vec<Stock>,
}

/// One tick's snapshot in wire order: a shared millisecond timestamp and one
/// `(code, price bits)` record per instrument.
#[derive(Clone, Debug)]
pub struct StockMessage {
    pub timestamp: u64,
    pub stocks: Vec<(u16, u64)>,
}

/// A failure while building the run from the seed dataset; fatal, no tick
/// runs after one of these.
#[derive(Clone, Copy, Debug, PartialEq, Eq, Structural)]
pub enum SetupError {
    /// The seed dataset holds no instruments.
    EmptySeed,
    /// Two seed records share a ticker, so no bijective code table exists.
    DuplicateTicker,
    /// More instruments than distinct two-byte wire codes.
    TooManyInstruments,
}

/// The tickers of a seed dataset, in enumeration order.
pub open spec fn seed_ids(stocks: Seq<Stock>) -> Seq<Seq<char>> {
    stocks.map_values(|s: Stock| s.ticker@)
}

/// The open prices of a seed dataset, in enumeration order.
pub open spec fn opens_of(stocks: Seq<Stock>) -> Seq<u64> {
    stocks.map_values(|s: Stock| s.open_bits)
}

/// The close prices of a seed dataset, in enumeration order.
pub open spec fn closes_of(stocks: Seq<Stock>) -> Seq<u64> {
    stocks.map_values(|s: Stock| s.close_bits)
}

} // verus!
