//! The text-file side of the connector: tokenizing, decoding and following.

pub mod config;
pub mod datetime;
pub mod number;
pub mod parser;
pub mod reader;
