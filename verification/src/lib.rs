//! A TCP-level TLS load balancer library: a bounded-memory ClientHello
//! parser, a JA4 client-fingerprint calculator, a backend connection pool
//! model, a domain routing table, and an IP-to-ASN lookup table.

pub mod cli;
pub mod config;
pub mod hello;
pub mod ip;
pub mod ja4;
pub mod parser;
pub mod pool;
pub mod state;

use vstd::prelude::*;

verus! {

/// Reads a big-endian 16-bit value from two bytes.
pub open spec fn spec_be16(hi: u8, lo: u8) -> u16 {
    (hi as u16 * 256 + lo as u16) as u16
}

/// Executable counterpart of [`spec_be16`].
pub fn be16(hi: u8, lo: u8) -> (r: u16)
    ensures
        r == spec_be16(hi, lo),
{
    hi as u16 * 256 + lo as u16
}

} // verus!
