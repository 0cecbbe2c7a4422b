//! Command-line options as plain values.

use vstd::prelude::*;

verus! {

/// A TCP/TLS loadbalancer.
#[derive(Debug, PartialEq, Eq)]
pub struct Cli {
    /// Path to the config file.
    pub config_file: String,
}

} // verus!
