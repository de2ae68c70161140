//! Network-address derivation and CIDR overlap: a prefix length selects the
//! top bits of an address; two blocks overlap when the addresses agree on the
//! top bits of the shorter prefix.
use vstd::prelude::*;
use crate::addr::IpAddress;
use crate::addr::spec_family_bits;

verus! {

/// The IPv4 mask of a prefix length: the top `p` bits set, the rest clear.
pub open spec fn mask32(p: u8) -> u32
    recommends
        p <= 32,
{
    if p == 0 {
        0u32
    } else {
        (0xffff_ffffu32 << ((32 - p) as u32)) as u32
    }
}

/// The IPv6 mask of a prefix length: the top `p` bits set, the rest clear.
pub open spec fn mask128(p: u8) -> u128
    recommends
        p <= 128,
{
    if p == 0 {
        0u128
    } else {
        (0xffff_ffff_ffff_ffff_ffff_ffff_ffff_ffffu128 << ((128 - p) as u128)) as u128
    }
}

/// The shorter of two prefix lengths.
pub open spec fn min_prefix(p1: u8, p2: u8) -> u8 {
    if p1 <= p2 {
        p1
    } else {
        p2
    }
}

/// The network address of a block: the address with its host bits zeroed.
pub open spec fn spec_network(a: IpAddress, p: u8) -> IpAddress
    recommends
        p <= spec_family_bits(a),
{
    match a {
        IpAddress::V4(x) => IpAddress::V4(x & mask32(p)),
        IpAddress::V6(x) => IpAddress::V6(x & mask128(p)),
    }
}

/// Whether two blocks share at least one address: families must agree, and the
/// addresses must agree under the mask of the shorter prefix.
pub open spec fn spec_overlap(a1: IpAddress, p1: u8, a2: IpAddress, p2: u8) -> bool
    recommends
        p1 <= spec_family_bits(a1),
        p2 <= spec_family_bits(a2),
{
    match (a1, a2) {
        (IpAddress::V4(x), IpAddress::V4(y)) => x & mask32(min_prefix(p1, p2)) == y & mask32(
            min_prefix(p1, p2),
        ),
        (IpAddress::V6(x), IpAddress::V6(y)) => x & mask128(min_prefix(p1, p2)) == y & mask128(
            min_prefix(p1, p2),
        ),
        _ => false,
    }
}

/// Calculate the network address from an address and a prefix length.
pub fn get_network_address(ip: IpAddress, prefix_len: u8) -> (r: IpAddress)
    requires
        prefix_len <= spec_family_bits(ip),
    ensures
        r == spec_network(ip, prefix_len),
{
    match ip {
        IpAddress::V4(x) => {
            let mask: u32 = if prefix_len == 0 {
                0
            } else {
                0xffff_ffffu32 << ((32 - prefix_len) as u32)
            };
            IpAddress::V4(x & mask)
        },
        IpAddress::V6(x) => {
            let mask: u128 = if prefix_len == 0 {
                0
            } else {
                0xffff_ffff_ffff_ffff_ffff_ffff_ffff_ffffu128 << ((128 - prefix_len) as u128)
            };
            IpAddress::V6(x & mask)
        },
    }
}

/// Check whether two CIDR blocks overlap. Blocks of different families never
/// do; blocks of one family do exactly when their addresses agree under the
/// mask of the shorter prefix.
pub fn networks_overlap(ip1: IpAddress, prefix1: u8, ip2: IpAddress, prefix2: u8) -> (r: bool)
    requires
        prefix1 <= spec_family_bits(ip1),
        prefix2 <= spec_family_bits(ip2),
    ensures
        r == spec_overlap(ip1, prefix1, ip2, prefix2),
{
    let min_p: u8 = if prefix1 <= prefix2 {
        prefix1
    } else {
        prefix2
    };
    match (ip1, ip2) {
        (IpAddress::V4(x), IpAddress::V4(y)) => {
            let mask: u32 = if min_p == 0 {
                0
            } else {
                0xffff_ffffu32 << ((32 - min_p) as u32)
            };
            (x & mask) == (y & mask)
        },
        (IpAddress::V6(x), IpAddress::V6(y)) => {
            let mask: u128 = if min_p == 0 {
                0
            } else {
                0xffff_ffff_ffff_ffff_ffff_ffff_ffff_ffffu128 << ((128 - min_p) as u128)
            };
            (x & mask) == (y & mask)
        },
        _ => false,
    }
}

/// Bit `i` of a 32-bit value, bit 0 lowest.
pub open spec fn bit32(x: u32, i: u32) -> bool
    recommends
        i < 32,
{
    (x >> i) & 1 == 1
}

/// Bit `i` of a 128-bit value, bit 0 lowest.
pub open spec fn bit128(x: u128, i: u128) -> bool
    recommends
        i < 128,
{
    (x >> i) & 1 == 1
}

/// The network address of an IPv4 block has its lowest `32 - p` bits zero,
/// and its top `p` bits equal to the bits of the address it came from.
pub proof fn lemma_network_bits_v4(a: u32, p: u8, i: u32)
    by (bit_vector)
    requires
        p <= 32,
        i < 32,
    ensures
        i < 32 - p ==> !bit32(a & mask32(p), i),
        i >= 32 - p ==> bit32(a & mask32(p), i) == bit32(a, i),
{
}

/// The network address of an IPv6 block has its lowest `128 - p` bits zero,
/// and its top `p` bits equal to the bits of the address it came from.
pub proof fn lemma_network_bits_v6(a: u128, p: u8, i: u128)
    by (bit_vector)
    requires
        p <= 128,
        i < 128,
    ensures
        i < 128 - p ==> !bit128(a & mask128(p), i),
        i >= 128 - p ==> bit128(a & mask128(p), i) == bit128(a, i),
{
}

/// Overlap is symmetric in its two blocks.
pub proof fn lemma_overlap_symmetric(a1: IpAddress, p1: u8, a2: IpAddress, p2: u8)
    ensures
        spec_overlap(a1, p1, a2, p2) == spec_overlap(a2, p2, a1, p1),
{
}

/// Blocks of different address families never overlap, whatever the prefixes.
pub proof fn lemma_overlap_family_mismatch(a1: IpAddress, p1: u8, a2: IpAddress, p2: u8)
    requires
        (a1 is V4) != (a2 is V4),
    ensures
        !spec_overlap(a1, p1, a2, p2),
{
}

/// A block with prefix zero overlaps every block of its own family.
pub proof fn lemma_overlap_prefix_zero(a1: IpAddress, a2: IpAddress, p2: u8)
    requires
        (a1 is V4) == (a2 is V4),
    ensures
        spec_overlap(a1, 0, a2, p2),
{
    assert(forall|x: u32| #[trigger] (x & 0u32) == 0u32) by (bit_vector);
    assert(forall|x: u128| #[trigger] (x & 0u128) == 0u128) by (bit_vector);
}

/// Two single-host blocks (full-width prefixes) overlap exactly when their
/// addresses are equal.
pub proof fn lemma_overlap_single_host(a1: IpAddress, a2: IpAddress)
    requires
        (a1 is V4) == (a2 is V4),
    ensures
        spec_overlap(a1, spec_family_bits(a1), a2, spec_family_bits(a2)) == (a1 == a2),
{
    assert(forall|x: u32| #[trigger] (x & mask32(32)) == x) by (bit_vector);
    assert(forall|x: u128| #[trigger] (x & mask128(128)) == x) by (bit_vector);
}

} // verus!
