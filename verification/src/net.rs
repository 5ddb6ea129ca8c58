//! Network addresses as plain values.

use vstd::prelude::*;

verus! {

/// An IP address: four octets for IPv4, eight 16-bit segments for IPv6.
#[derive(Clone, Copy, Debug, PartialEq, Eq, Structural)]
pub enum IpAddress {
    V4(u8, u8, u8, u8),
    V6(u16, u16, u16, u16, u16, u16, u16, u16),
}

} // verus!
