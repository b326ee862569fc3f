//! Configuration of the time-series store client: connection endpoint,
//! credentials and target bucket, all plain strings.
//!
//! How the values are populated (environment, defaults, files) is the
//! surrounding program's business; the core only consumes them.

use vstd::prelude::*;

verus! {

/// Connection settings for the time-series store.
pub struct Config {
    pub url: String,
    pub token: String,
    pub org: String,
    pub bucket: String,
}

impl Config {
    /// Builds a configuration from already-retrieved values.
    pub fn new(url: String, token: String, org: String, bucket: String) -> (c: Config)
        ensures
            c.url@ == url@,
            c.token@ == token@,
            c.org@ == org@,
            c.bucket@ == bucket@,
    {
        Config { url, token, org, bucket }
    }
}

} // verus!
