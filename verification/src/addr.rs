//! Plain value types for socket addresses and endpoints.
//!
//! An address is the primary key of every endpoint: an IP (v4 addresses are
//! carried in the low 32 bits, v6 uses the full width) together with a port.

use vstd::prelude::*;

verus! {

/// A socket address: IP plus port. The primary key of every endpoint.
#[derive(Clone, Copy, Debug, PartialEq, Eq, Hash, Structural)]
pub struct Address {
    pub ip: u128,
    pub port: u16,
}

impl Address {
    /// Builds an address from the four octets of an IPv4 address and a port.
    pub fn v4(a: u8, b: u8, c: u8, d: u8, port: u16) -> (r: Address)
        ensures
            r.port == port,
            r.ip == a as u128 * 0x1000000 + b as u128 * 0x10000 + c as u128 * 0x100 + d as u128,
    {
        Address {
            ip: a as u128 * 0x1000000 + b as u128 * 0x10000 + c as u128 * 0x100 + d as u128,
            port,
        }
    }
}

/// An endpoint: an address plus opaque metadata (identity, protocol hints),
/// carried as a plain token chosen by the resolver's caller.
#[derive(Clone, Copy, Debug, PartialEq, Eq, Hash, Structural)]
pub struct Endpoint {
    pub addr: Address,
    pub meta: u64,
}

} // verus!
