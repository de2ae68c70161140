//! CIDR notation: reading `address/prefix` text of either family, writing
//! it back, the errors both readings can raise, and the proof that writing
//! then reading restores the pair.
use vstd::prelude::*;
use crate::addr::IpAddress;
use crate::addr::spec_family_bits;
use crate::cidr::spec_overlap;
use crate::cidr::networks_overlap;
use crate::text::all_digits;
use crate::text::dec_str;
use crate::text::dec_val;
use crate::text::free_of;
use crate::text::is_digit;
use crate::text::join_seq;
use crate::text::lemma_dec_str_props;
use crate::text::lemma_hex_digits_free;
use crate::text::lemma_join_free;
use crate::text::lemma_join_has_sep;
use crate::text::lemma_split_join;
use crate::text::split_seq;
use crate::text::split_str;
use crate::text::spec_parse_u8_decimal;
use crate::text::parse_u8_decimal;
use crate::text::fmt_u8;
use crate::v4text::format_ipv4;
use crate::v4text::lemma_parse_format_ipv4;
use crate::v4text::lemma_ipv4_rejects_colon;
use crate::v4text::parse_ipv4;
use crate::v4text::spec_format_ipv4;
use crate::v4text::spec_parse_ipv4;
use crate::v6text::format_ipv6;
use crate::v6text::lemma_parse_format_ipv6;
use crate::v6text::parse_ipv6;
use crate::v6text::spec_format_ipv6;
use crate::v6text::spec_parse_ipv6;
use crate::v6text::spec_v6_parts;
use crate::v6text::lemma_hex_strs_vals;

verus! {

use vstd::string::StrSliceExecFns;
use vstd::string::StringExecFns;

/// The two parse failures: text that is not an address, and text that is
/// not `address/prefix` notation. Each carries the offending input.
#[derive(Debug)]
pub enum IpParseError {
    InvalidFormat(String),
    InvalidCidr(String),
}

/// The description an error prints: its kind, then the offending text.
pub open spec fn spec_error_message(e: IpParseError) -> Seq<char> {
    match e {
        IpParseError::InvalidFormat(s) => "Invalid IP address format: "@ + s@,
        IpParseError::InvalidCidr(s) => "Invalid CIDR notation: "@ + s@,
    }
}

impl IpParseError {
    /// The human-readable description of the failure.
    pub fn message(&self) -> (r: String)
        ensures
            r@ == spec_error_message(*self),
    {
        match self {
            IpParseError::InvalidFormat(s) => {
                let mut m: String = "Invalid IP address format: ".to_owned();
                m.append(s.as_str());
                m
            },
            IpParseError::InvalidCidr(s) => {
                let mut m: String = "Invalid CIDR notation: ".to_owned();
                m.append(s.as_str());
                m
            },
        }
    }
}

/// The address a piece of text denotes: IPv4 dotted-quad text first, IPv6
/// text otherwise. No text is both: IPv6 text always holds a colon, which
/// IPv4 text never does.
pub open spec fn spec_parse_ip(s: Seq<char>) -> Option<IpAddress> {
    if spec_parse_ipv4(s) is Some {
        Some(IpAddress::V4(spec_parse_ipv4(s)->Some_0))
    } else if spec_parse_ipv6(s) is Some {
        Some(IpAddress::V6(spec_parse_ipv6(s)->Some_0))
    } else {
        None
    }
}

/// Parse and validate an IP address string.
pub fn parse_ip_address(ip_str: &str) -> (r: Result<IpAddress, IpParseError>)
    ensures
        r is Ok <==> spec_parse_ip(ip_str@) is Some,
        r is Ok ==> r->Ok_0 == spec_parse_ip(ip_str@)->Some_0,
        r is Err ==> r->Err_0 is InvalidFormat && r->Err_0->InvalidFormat_0@ == ip_str@,
{
    match parse_ipv4(ip_str) {
        Some(v) => Ok(IpAddress::V4(v)),
        None => match parse_ipv6(ip_str) {
            Some(v) => Ok(IpAddress::V6(v)),
            None => Err(IpParseError::InvalidFormat(ip_str.to_owned())),
        },
    }
}

/// The pair a piece of CIDR text denotes: address text and prefix numeral
/// around one slash, the prefix within the family's bit width.
pub open spec fn spec_parse_cidr(s: Seq<char>) -> Option<(IpAddress, u8)> {
    let ps = split_seq(s, '/');
    if ps.len() == 2 && spec_parse_ip(ps[0]) is Some && spec_parse_u8_decimal(ps[1]) is Some {
        let a = spec_parse_ip(ps[0])->Some_0;
        let p = spec_parse_u8_decimal(ps[1])->Some_0;
        if p <= spec_family_bits(a) {
            Some((a, p))
        } else {
            None
        }
    } else {
        None
    }
}

/// The error CIDR parsing reports for a given input: bad address text is
/// `InvalidFormat` carrying that text, everything else is `InvalidCidr`
/// carrying the whole input.
pub open spec fn cidr_error_matches(s: Seq<char>, e: IpParseError) -> bool {
    let ps = split_seq(s, '/');
    if ps.len() == 2 && spec_parse_ip(ps[0]) is None {
        e is InvalidFormat && e->InvalidFormat_0@ == ps[0]
    } else {
        e is InvalidCidr && e->InvalidCidr_0@ == s
    }
}

/// Parse and validate a CIDR notation string.
pub fn parse_cidr(cidr_str: &str) -> (r: Result<(IpAddress, u8), IpParseError>)
    ensures
        r is Ok <==> spec_parse_cidr(cidr_str@) is Some,
        r is Ok ==> r->Ok_0 == spec_parse_cidr(cidr_str@)->Some_0,
        r is Err ==> cidr_error_matches(cidr_str@, r->Err_0),
{
    let parts = split_str(cidr_str, '/');
    if parts.len() != 2 {
        return Err(IpParseError::InvalidCidr(cidr_str.to_owned()));
    }
    let ip = match parse_ip_address(parts[0].as_str()) {
        Ok(a) => a,
        Err(e) => {
            return Err(e);
        },
    };
    let prefix = match parse_u8_decimal(parts[1].as_str()) {
        Some(p) => p,
        None => {
            return Err(IpParseError::InvalidCidr(cidr_str.to_owned()));
        },
    };
    let max_prefix = ip.family_bits();
    if prefix > max_prefix {
        return Err(IpParseError::InvalidCidr(cidr_str.to_owned()));
    }
    Ok((ip, prefix))
}

/// The text of an address, in its family's notation.
pub open spec fn spec_format_address(a: IpAddress) -> Seq<char> {
    match a {
        IpAddress::V4(v) => spec_format_ipv4(v),
        IpAddress::V6(v) => spec_format_ipv6(v),
    }
}

/// Write an address in its family's notation.
pub fn format_address(a: &IpAddress) -> (r: String)
    ensures
        r@ == spec_format_address(*a),
{
    match a {
        IpAddress::V4(v) => format_ipv4(*v),
        IpAddress::V6(v) => format_ipv6(*v),
    }
}

/// The CIDR text of a block: the address, a slash, the prefix length.
pub open spec fn spec_format_cidr(a: IpAddress, prefix: u8) -> Seq<char> {
    spec_format_address(a) + seq!['/'] + dec_str(prefix as nat)
}

/// Write a block in CIDR notation.
pub fn format_cidr(a: &IpAddress, prefix: u8) -> (r: String)
    ensures
        r@ == spec_format_cidr(*a, prefix),
{
    let mut r = format_address(a);
    r.append("/");
    let p = fmt_u8(prefix);
    r.append(p.as_str());
    proof {
        reveal_strlit("/");
        assert("/"@ =~= seq!['/']);
    }
    r
}

/// Address text of either family never holds a slash.
pub proof fn lemma_format_address_no_slash(a: IpAddress)
    ensures
        free_of(spec_format_address(a), '/'),
{
    match a {
        IpAddress::V4(v) => {
            let ps = seq![
                dec_str(crate::v4text::spec_ipv4_octet(v, 0) as nat),
                dec_str(crate::v4text::spec_ipv4_octet(v, 1) as nat),
                dec_str(crate::v4text::spec_ipv4_octet(v, 2) as nat),
                dec_str(crate::v4text::spec_ipv4_octet(v, 3) as nat),
            ];
            assert forall|i: int| 0 <= i < ps.len() implies free_of(#[trigger] ps[i], '/') by {
                assert(all_digits(ps[i])) by {
                    if i == 0 {
                        lemma_dec_str_props(crate::v4text::spec_ipv4_octet(v, 0) as nat);
                    } else if i == 1 {
                        lemma_dec_str_props(crate::v4text::spec_ipv4_octet(v, 1) as nat);
                    } else if i == 2 {
                        lemma_dec_str_props(crate::v4text::spec_ipv4_octet(v, 2) as nat);
                    } else {
                        lemma_dec_str_props(crate::v4text::spec_ipv4_octet(v, 3) as nat);
                    }
                }
                assert(crate::text::all_hex_digits(ps[i]));
                lemma_hex_digits_free(ps[i]);
            }
            lemma_join_free(ps, '.', '/');
        },
        IpAddress::V6(v) => {
            let ps = spec_v6_parts(v);
            let gs = crate::v6text::spec_v6_groups(v);
            lemma_hex_strs_vals(gs);
            lemma_hex_strs_vals(gs.take(crate::v6text::best_run_from(gs, 0).0));
            lemma_hex_strs_vals(gs.skip(crate::v6text::best_run_from(gs, 0).1));
            lemma_hex_strs_vals(
                gs.skip(
                    crate::v6text::best_run_from(gs, 0).0 + crate::v6text::best_run_from(gs, 0).1,
                ),
            );
            assert forall|i: int| 0 <= i < ps.len() implies free_of(#[trigger] ps[i], '/') by {
                if ps[i].len() > 0 {
                    assert(crate::text::all_hex_digits(ps[i])) by {
                        assert(crate::text::is_hex_group_text(ps[i]));
                    }
                    lemma_hex_digits_free(ps[i]);
                }
            }
            lemma_join_free(ps, ':', '/');
        },
    }
}

/// Reading back a written block recovers it: formatting then parsing is
/// the identity on every valid pair of address and prefix.
pub proof fn lemma_parse_format_cidr(a: IpAddress, prefix: u8)
    requires
        prefix <= spec_family_bits(a),
    ensures
        spec_parse_cidr(spec_format_cidr(a, prefix)) == Some((a, prefix)),
{
    let at = spec_format_address(a);
    let pt = dec_str(prefix as nat);
    lemma_dec_str_props(prefix as nat);
    lemma_format_address_no_slash(a);
    assert(free_of(pt, '/')) by {
        assert(crate::text::all_hex_digits(pt));
        lemma_hex_digits_free(pt);
    }
    let ps = seq![at, pt];
    lemma_split_join(ps, '/');
    assert(join_seq(ps, '/') =~= spec_format_cidr(a, prefix)) by {
        assert(join_seq(ps.drop_last(), '/') == at) by {
            assert(ps.drop_last() =~= seq![at]);
        }
    }
    assert(split_seq(spec_format_cidr(a, prefix), '/') == ps);
    assert(spec_parse_ip(at) == Some(a)) by {
        match a {
            IpAddress::V4(v) => {
                lemma_parse_format_ipv4(v);
            },
            IpAddress::V6(v) => {
                lemma_parse_format_ipv6(v);
                assert(spec_v6_parts(v).len() >= 2);
                lemma_join_has_sep(spec_v6_parts(v), ':');
                lemma_ipv4_rejects_colon(at);
            },
        }
    }
    assert(spec_parse_u8_decimal(pt) == Some(prefix)) by {
        assert(pt[0] != '+') by {
            assert(is_digit(pt[0]));
            assert('+' as u32 == 43);
        }
        assert(dec_val(pt) == prefix as nat);
    }
}

/// Read two CIDR blocks and tell whether they overlap: the computing core
/// of the overlap check, printing left to the caller.
pub fn evaluate_cidr_overlap(network1: &str, network2: &str) -> (r: Result<bool, IpParseError>)
    ensures
        r is Ok <==> (spec_parse_cidr(network1@) is Some && spec_parse_cidr(network2@) is Some),
        r is Ok ==> ({
            let (a1, p1) = spec_parse_cidr(network1@)->Some_0;
            let (a2, p2) = spec_parse_cidr(network2@)->Some_0;
            r->Ok_0 == spec_overlap(a1, p1, a2, p2)
        }),
        r is Err && spec_parse_cidr(network1@) is None ==> cidr_error_matches(
            network1@,
            r->Err_0,
        ),
        r is Err && spec_parse_cidr(network1@) is Some ==> cidr_error_matches(
            network2@,
            r->Err_0,
        ),
{
    let (ip1, prefix1) = match parse_cidr(network1) {
        Ok(pair) => pair,
        Err(e) => {
            return Err(e);
        },
    };
    let (ip2, prefix2) = match parse_cidr(network2) {
        Ok(pair) => pair,
        Err(e) => {
            return Err(e);
        },
    };
    Ok(networks_overlap(ip1, prefix1, ip2, prefix2))
}

} // verus!
