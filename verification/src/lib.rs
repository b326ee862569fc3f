//! Connector core: an incremental text-log follower and record classifier.
//!
//! A growing text file holds one record per line.  Each line is either a
//! timestamped OHLC candle (7 whitespace-separated tokens) or a timestamped
//! scalar indicator (5 tokens); anything else is skipped.  This crate holds
//! the verified logic: the line classifier/decoder, the calendar arithmetic
//! that turns a civil date and time in the fixed Korea Standard Time offset
//! (UTC+9) into epoch seconds, and the dispatch decisions of the follower
//! loop.  File handles, sleeping and the durable-storage client are left to
//! the surrounding program.

pub mod influx;
pub mod model;
pub mod text;
