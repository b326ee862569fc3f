//! A timestamped named integer-valued measurement.

use vstd::prelude::*;

verus! {

/// A timestamped named scalar measurement.
///
/// `value` is the exact integer value of the line's numeral; a numeral with
/// a non-zero fractional part is a decode failure, never a truncation.
/// `timestamp` is non-negative seconds since the epoch, obtained from the
/// line's civil date and time in the fixed UTC+9 offset.
#[derive(Debug, PartialEq, Eq, Clone)]
pub struct Indicator {
    pub timestamp: u64,
    pub event: String,
    pub property: String,
    pub value: i64,
}

/// The mathematical content of an `Indicator`.
pub struct IndicatorModel {
    pub timestamp: int,
    pub event: Seq<char>,
    pub property: Seq<char>,
    pub value: int,
}

impl View for Indicator {
    type V = IndicatorModel;

    open spec fn view(&self) -> IndicatorModel {
        IndicatorModel {
            timestamp: self.timestamp as int,
            event: self.event@,
            property: self.property@,
            value: self.value as int,
        }
    }
}

} // verus!
