//! Configuration for the time-series store that the decoded records are
//! forwarded to.  The store's client itself does network I/O and lives in
//! the surrounding program; only its configuration value is modelled here.

pub mod config;
