//! Configuration data as plain values.

use vstd::prelude::*;

verus! {

/// One backend definition from the configuration: the address strings to
/// resolve, the optional error-handling override, and how many
/// connections to pre-establish.
#[derive(Debug, Clone)]
pub struct Backend {
    /// Address strings, each either a literal socket address or a host
    /// name to resolve; the set of all resolved addresses is used and
    /// duplicates are coalesced.
    pub addresses: Vec<String>,
    /// Whether to open the TLS connection itself on error, overriding
    /// the frontend's setting.
    pub terminate_tls_on_error: Option<bool>,
    /// Number of connections held idle in the pool, made in advance for
    /// future frontend connections; when unspecified, three are made.
    pub preconnect_count: Option<usize>,
}

/// Pre-connect attempts issued at pool construction when the
/// configuration does not choose a count.
pub const DEFAULT_PRECONNECT_COUNT: usize = 3;

impl Backend {
    /// The pre-connect count this backend asks for: the configured
    /// value, or the default of three when the configuration leaves it
    /// unspecified.
    pub fn effective_preconnect(&self) -> (r: usize)
        ensures
            r == match self.preconnect_count {
                Some(n) => n as int,
                None => DEFAULT_PRECONNECT_COUNT as int,
            },
    {
        match self.preconnect_count {
            Some(n) => n,
            None => DEFAULT_PRECONNECT_COUNT,
        }
    }
}

} // verus!
