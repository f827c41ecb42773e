//! Server addresses, modelled as plain integers.
//!
//! A server is an IPv4 or an IPv6 address; the port is fixed to 53 by the
//! net layer. The address is held as its big-endian numeric value, so that
//! equality and the on-disk octet encoding are direct.

use vstd::prelude::*;

verus! {

/// An IPv4 or IPv6 DNS server address.
#[derive(Clone, Copy, Debug, PartialEq, Eq, Structural)]
pub enum IpAddress {
    V4(u32),
    V6(u128),
}

impl IpAddress {
    /// Builds an IPv4 address from its four dotted-quad octets.
    pub fn v4(a: u8, b: u8, c: u8, d: u8) -> (r: IpAddress)
        ensures
            r == IpAddress::V4(
                ((a as u32) * 0x1000000 + (b as u32) * 0x10000 + (c as u32) * 0x100
                    + d as u32) as u32,
            ),
    {
        IpAddress::V4(
            (a as u32) * 0x1000000 + (b as u32) * 0x10000 + (c as u32) * 0x100 + d as u32,
        )
    }
}

} // verus!
