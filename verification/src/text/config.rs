//! Configuration of the follower: the path of the text file to follow.
//!
//! How the value is populated (environment, defaults, files) is the
//! surrounding program's business; the core only consumes the value.

use vstd::prelude::*;

verus! {

/// The follower's configuration: the path of the text file to follow.
pub struct Config {
    pub path: String,
}

impl Config {
    /// Builds a configuration from an already-retrieved path value.
    pub fn new(path: String) -> (c: Config)
        ensures
            c.path@ == path@,
    {
        Config { path }
    }
}

} // verus!
