//! A timestamped OHLC price bar for one named event.

use vstd::prelude::*;

verus! {

/// A timestamped open/high/low/close price bar.
///
/// The four prices are kept exactly as the decimal numerals that appeared in
/// the log line (see `text::number`); the surrounding program converts them
/// to machine floats at its own boundary.  `timestamp` is non-negative
/// seconds since the epoch, obtained from the line's civil date and time in
/// the fixed UTC+9 offset.
#[derive(Debug, PartialEq, Eq, Clone)]
pub struct Candle {
    pub event: String,
    pub timestamp: u64,
    pub open: String,
    pub high: String,
    pub low: String,
    pub close: String,
}

/// The mathematical content of a `Candle`.
pub struct CandleModel {
    pub event: Seq<char>,
    pub timestamp: int,
    pub open: Seq<char>,
    pub high: Seq<char>,
    pub low: Seq<char>,
    pub close: Seq<char>,
}

impl View for Candle {
    type V = CandleModel;

    open spec fn view(&self) -> CandleModel {
        CandleModel {
            event: self.event@,
            timestamp: self.timestamp as int,
            open: self.open@,
            high: self.high@,
            low: self.low@,
            close: self.close@,
        }
    }
}

} // verus!
