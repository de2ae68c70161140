//! The address type: a version-tagged numeric value, IPv4 as 32 bits or IPv6
//! as 128 bits.
use vstd::prelude::*;

verus! {

/// An IP address, either version: the discriminant is fixed at construction.
#[derive(Clone, Copy, Debug, PartialEq, Eq, Structural)]
pub enum IpAddress {
    V4(u32),
    V6(u128),
}

impl IpAddress {
    /// True of two addresses of the same family.
    pub fn same_family(&self, other: &IpAddress) -> (r: bool)
        ensures
            r == (self is V4 <==> other is V4),
    {
        match (self, other) {
            (IpAddress::V4(_), IpAddress::V4(_)) => true,
            (IpAddress::V6(_), IpAddress::V6(_)) => true,
            _ => false,
        }
    }

    /// The bit width of the address family: 32 for IPv4, 128 for IPv6.
    pub fn family_bits(&self) -> (r: u8)
        ensures
            r == spec_family_bits(*self),
    {
        match self {
            IpAddress::V4(_) => 32,
            IpAddress::V6(_) => 128,
        }
    }
}

/// The bit width of an address's family.
pub open spec fn spec_family_bits(a: IpAddress) -> u8 {
    match a {
        IpAddress::V4(_) => 32,
        IpAddress::V6(_) => 128,
    }
}

/// The loopback block 127.0.0.0/8.
pub open spec fn v4_is_loopback(x: u32) -> bool {
    0x7f00_0000 <= x <= 0x7fff_ffff
}

/// The private blocks 10.0.0.0/8, 172.16.0.0/12 and 192.168.0.0/16.
pub open spec fn v4_is_private(x: u32) -> bool {
    (0x0a00_0000 <= x <= 0x0aff_ffff) || (0xac10_0000 <= x <= 0xac1f_ffff) || (0xc0a8_0000 <= x
        <= 0xc0a8_ffff)
}

/// The multicast block 224.0.0.0/4.
pub open spec fn v4_is_multicast(x: u32) -> bool {
    0xe000_0000 <= x <= 0xefff_ffff
}

/// The limited broadcast address 255.255.255.255.
pub open spec fn v4_is_broadcast(x: u32) -> bool {
    x == 0xffff_ffff
}

/// The loopback address ::1.
pub open spec fn v6_is_loopback(x: u128) -> bool {
    x == 1
}

/// The multicast block ff00::/8.
pub open spec fn v6_is_multicast(x: u128) -> bool {
    x >= 0xff00_0000_0000_0000_0000_0000_0000_0000
}

/// The category text of an address: the first matching class wins, in the
/// order loopback, private, multicast, broadcast, public for IPv4, and
/// loopback, multicast, generic for IPv6.
pub open spec fn spec_ip_info(a: IpAddress) -> Seq<char> {
    match a {
        IpAddress::V4(x) => if v4_is_loopback(x) {
            "IPv4 Loopback"@
        } else if v4_is_private(x) {
            "IPv4 Private"@
        } else if v4_is_multicast(x) {
            "IPv4 Multicast"@
        } else if v4_is_broadcast(x) {
            "IPv4 Broadcast"@
        } else {
            "IPv4 Public"@
        },
        IpAddress::V6(x) => if v6_is_loopback(x) {
            "IPv6 Loopback"@
        } else if v6_is_multicast(x) {
            "IPv6 Multicast"@
        } else {
            "IPv6"@
        },
    }
}

/// Get IP address type information.
pub fn get_ip_info(ip: &IpAddress) -> (r: String)
    ensures
        r@ == spec_ip_info(*ip),
{
    match ip {
        IpAddress::V4(x) => {
            let v = *x;
            if 0x7f00_0000 <= v && v <= 0x7fff_ffff {
                "IPv4 Loopback".to_owned()
            } else if (0x0a00_0000 <= v && v <= 0x0aff_ffff) || (0xac10_0000 <= v && v
                <= 0xac1f_ffff) || (0xc0a8_0000 <= v && v <= 0xc0a8_ffff) {
                "IPv4 Private".to_owned()
            } else if 0xe000_0000 <= v && v <= 0xefff_ffff {
                "IPv4 Multicast".to_owned()
            } else if v == 0xffff_ffff {
                "IPv4 Broadcast".to_owned()
            } else {
                "IPv4 Public".to_owned()
            }
        },
        IpAddress::V6(x) => {
            let v = *x;
            if v == 1 {
                "IPv6 Loopback".to_owned()
            } else if v >= 0xff00_0000_0000_0000_0000_0000_0000_0000 {
                "IPv6 Multicast".to_owned()
            } else {
                "IPv6".to_owned()
            }
        },
    }
}

} // verus!
