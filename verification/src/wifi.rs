//! The radio's settings.

use vstd::prelude::*;

verus! {

/// An access point.
#[derive(Clone, Copy, Debug, PartialEq, Eq, Structural)]
pub struct AccessPoint {}

/// How the access point's network is set up.
#[derive(Clone, Copy, Debug, PartialEq, Eq, Structural)]
pub struct RouterSettings {
    /// The address of the access point itself, as a number.
    pub gateway: u32,
    /// How many leading bits of an address name the network.
    pub mask: u8,
    pub dhcp_enabled: bool,
    /// The name server that clients are told about.
    pub dns: Option<u32>,
    pub secondary_dns: Option<u32>,
}

/// The address `a.b.c.d` as a number.
pub open spec fn address(a: u8, b: u8, c: u8, d: u8) -> int {
    ((a * 256 + b) * 256 + c) * 256 + d
}

/// The network of the access point. It hands out addresses, and it is the name
/// server of its clients, so that every name leads to it.
pub fn access_point() -> (s: RouterSettings)
    ensures
        s.gateway == address(192, 168, 71, 1),
        s.mask == 24,
        s.dhcp_enabled,
        s.dns == Some(s.gateway),
        s.secondary_dns == None::<u32>,
{
    let own: u32 = 0xC0A8_4701;
    RouterSettings {
        gateway: own,
        mask: 24,
        dhcp_enabled: true,
        dns: Some(own),
        secondary_dns: None,
    }
}

} // verus!
