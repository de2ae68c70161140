//! IPv4 address text: the dotted quad of four decimal octets, reading and
//! writing, and the proof that the two are inverses.
use vstd::prelude::*;
use crate::text::all_digits;
use crate::text::dec_str;
use crate::text::dec_val;
use crate::text::free_of;
use crate::text::is_digit;
use crate::text::is_octet_text;
use crate::text::join_seq;
use crate::text::join_with;
use crate::text::fmt_u8;
use crate::text::lemma_dec_str_props;
use crate::text::lemma_split_carries_char;
use crate::text::lemma_split_join;
use crate::text::contains_char;
use crate::text::parse_octet;
use crate::text::split_seq;
use crate::text::split_str;
use crate::text::views;

verus! {

use vstd::string::StringExecFns;

/// Four octet values assembled big-endian into one 32-bit address.
pub open spec fn ipv4_of_octets(o0: u8, o1: u8, o2: u8, o3: u8) -> u32 {
    (o0 * 0x100_0000 + o1 * 0x1_0000 + o2 * 0x100 + o3) as u32
}

/// The value of IPv4 address text: exactly four octet texts separated by
/// dots, most significant first; anything else is nothing.
pub open spec fn spec_parse_ipv4(s: Seq<char>) -> Option<u32> {
    let ps = split_seq(s, '.');
    if ps.len() == 4 && is_octet_text(ps[0]) && is_octet_text(ps[1]) && is_octet_text(ps[2])
        && is_octet_text(ps[3]) {
        Some(
            ipv4_of_octets(
                dec_val(ps[0]) as u8,
                dec_val(ps[1]) as u8,
                dec_val(ps[2]) as u8,
                dec_val(ps[3]) as u8,
            ),
        )
    } else {
        None
    }
}

/// Read IPv4 address text.
pub fn parse_ipv4(s: &str) -> (r: Option<u32>)
    ensures
        r == spec_parse_ipv4(s@),
{
    let parts = split_str(s, '.');
    if parts.len() != 4 {
        return None;
    }
    let o0 = match parse_octet(parts[0].as_str()) {
        Some(v) => v,
        None => {
            return None;
        },
    };
    let o1 = match parse_octet(parts[1].as_str()) {
        Some(v) => v,
        None => {
            return None;
        },
    };
    let o2 = match parse_octet(parts[2].as_str()) {
        Some(v) => v,
        None => {
            return None;
        },
    };
    let o3 = match parse_octet(parts[3].as_str()) {
        Some(v) => v,
        None => {
            return None;
        },
    };
    Some((o0 as u32) * 0x100_0000 + (o1 as u32) * 0x1_0000 + (o2 as u32) * 0x100 + (o3 as u32))
}

/// Octet `k` of an address, octet 0 most significant.
pub open spec fn spec_ipv4_octet(v: u32, k: int) -> u8
    recommends
        0 <= k < 4,
{
    if k == 0 {
        (v >> 24u32) as u8
    } else if k == 1 {
        (v >> 16u32) as u8
    } else if k == 2 {
        (v >> 8u32) as u8
    } else {
        v as u8
    }
}

/// The dotted-quad text of an address.
pub open spec fn spec_format_ipv4(v: u32) -> Seq<char> {
    join_seq(
        seq![
            dec_str(spec_ipv4_octet(v, 0) as nat),
            dec_str(spec_ipv4_octet(v, 1) as nat),
            dec_str(spec_ipv4_octet(v, 2) as nat),
            dec_str(spec_ipv4_octet(v, 3) as nat),
        ],
        '.',
    )
}

/// Write an address as a dotted quad.
pub fn format_ipv4(v: u32) -> (r: String)
    ensures
        r@ == spec_format_ipv4(v),
{
    let mut parts: Vec<String> = Vec::new();
    parts.push(fmt_u8((v >> 24u32) as u8));
    parts.push(fmt_u8((v >> 16u32) as u8));
    parts.push(fmt_u8((v >> 8u32) as u8));
    parts.push(fmt_u8(v as u8));
    proof {
        reveal_strlit(".");
        assert("."@[0] == '.');
        assert(views(parts@) =~= seq![
            dec_str(spec_ipv4_octet(v, 0) as nat),
            dec_str(spec_ipv4_octet(v, 1) as nat),
            dec_str(spec_ipv4_octet(v, 2) as nat),
            dec_str(spec_ipv4_octet(v, 3) as nat),
        ]);
    }
    join_with(&parts, ".")
}

/// Reassembling the four octets drawn from an address gives the address
/// back.
pub proof fn lemma_ipv4_octets_assemble(v: u32)
    by (bit_vector)
    ensures
        ((v >> 24u32) as u8) * 0x100_0000 + ((v >> 16u32) as u8) * 0x1_0000 + ((v
            >> 8u32) as u8) * 0x100 + (v as u8) == v,
{
}

/// Digits are not dots: the pieces of a dotted quad carry no stray
/// separator.
pub proof fn lemma_digits_not_dot(s: Seq<char>)
    requires
        all_digits(s),
    ensures
        free_of(s, '.'),
{
    assert(forall|c: char| is_digit(c) ==> c != '.') by {
        assert('.' as u32 == 46);
    }
}

/// Reading back a written address recovers it: the dotted quad of `v`
/// parses to `v`.
pub proof fn lemma_parse_format_ipv4(v: u32)
    ensures
        spec_parse_ipv4(spec_format_ipv4(v)) == Some(v),
{
    let o0 = spec_ipv4_octet(v, 0);
    let o1 = spec_ipv4_octet(v, 1);
    let o2 = spec_ipv4_octet(v, 2);
    let o3 = spec_ipv4_octet(v, 3);
    let ps = seq![
        dec_str(o0 as nat),
        dec_str(o1 as nat),
        dec_str(o2 as nat),
        dec_str(o3 as nat),
    ];
    lemma_dec_str_props(o0 as nat);
    lemma_dec_str_props(o1 as nat);
    lemma_dec_str_props(o2 as nat);
    lemma_dec_str_props(o3 as nat);
    assert(forall|i: int| 0 <= i < ps.len() ==> free_of(#[trigger] ps[i], '.')) by {
        lemma_digits_not_dot(ps[0]);
        lemma_digits_not_dot(ps[1]);
        lemma_digits_not_dot(ps[2]);
        lemma_digits_not_dot(ps[3]);
    }
    lemma_split_join(ps, '.');
    assert(is_octet_text(ps[0]) && is_octet_text(ps[1]) && is_octet_text(ps[2]) && is_octet_text(
        ps[3],
    ));
    lemma_ipv4_octets_assemble(v);
    assert(dec_val(ps[0]) as u8 == o0 && dec_val(ps[1]) as u8 == o1 && dec_val(ps[2]) as u8 == o2
        && dec_val(ps[3]) as u8 == o3);
}

/// Text that holds a colon is never an IPv4 address.
pub proof fn lemma_ipv4_rejects_colon(s: Seq<char>)
    requires
        contains_char(s, ':'),
    ensures
        spec_parse_ipv4(s) is None,
{
    let ps = split_seq(s, '.');
    if ps.len() == 4 && is_octet_text(ps[0]) && is_octet_text(ps[1]) && is_octet_text(ps[2])
        && is_octet_text(ps[3]) {
        lemma_split_carries_char(s, '.', ':');
        let i = choose|i: int|
            0 <= i < split_seq(s, '.').len() && contains_char(#[trigger] split_seq(s, '.')[i], ':');
        let j = choose|j: int| 0 <= j < ps[i].len() && ps[i][j] == ':';
        assert(is_digit(ps[i][j]));
        assert(':' as u32 == 58);
    }
}

} // verus!
