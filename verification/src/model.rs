//! The two record kinds a log line can decode to.

pub mod candle;
pub mod indicator;
