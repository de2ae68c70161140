//! IPv6 address text: colon-separated hexadecimal groups, one optional `::`
//! gap standing for a run of zero groups, an optional trailing embedded IPv4
//! quad, reading and writing, and the proof that the two are inverses.
use vstd::prelude::*;
use crate::text::contains_char;
use crate::text::free_of;
use crate::text::has_char;
use crate::text::hex_str;
use crate::text::hex_val;
use crate::text::is_hex_group_text;
use crate::text::join_seq;
use crate::text::join_with;
use crate::text::fmt_u16_hex;
use crate::text::lemma_hex_digits_free;
use crate::text::lemma_hex_str_props;
use crate::text::lemma_split_join;
use crate::text::lemma_split_len;
use crate::text::parse_hex_group;
use crate::text::split_seq;
use crate::text::split_str;
use crate::text::views;
use crate::v4text::parse_ipv4;
use crate::v4text::spec_parse_ipv4;

verus! {

use vstd::string::StrSliceExecFns;

/// Eight group values assembled big-endian into one 128-bit address.
pub open spec fn u128_of_groups(gs: Seq<u16>) -> u128
    recommends
        gs.len() == 8,
{
    (gs[0] * 0x1_0000_0000_0000_0000_0000_0000_0000 + gs[1] * 0x1_0000_0000_0000_0000_0000_0000
        + gs[2] * 0x1_0000_0000_0000_0000_0000 + gs[3] * 0x1_0000_0000_0000_0000 + gs[4]
        * 0x1_0000_0000_0000 + gs[5] * 0x1_0000_0000 + gs[6] * 0x1_0000 + gs[7]) as u128
}

/// Group `k` of an address, group 0 most significant.
pub open spec fn spec_v6_group(v: u128, k: int) -> u16
    recommends
        0 <= k < 8,
{
    if k == 0 {
        (v >> 112u128) as u16
    } else if k == 1 {
        (v >> 96u128) as u16
    } else if k == 2 {
        (v >> 80u128) as u16
    } else if k == 3 {
        (v >> 64u128) as u16
    } else if k == 4 {
        (v >> 48u128) as u16
    } else if k == 5 {
        (v >> 32u128) as u16
    } else if k == 6 {
        (v >> 16u128) as u16
    } else {
        v as u16
    }
}

/// The eight groups of an address.
pub open spec fn spec_v6_groups(v: u128) -> Seq<u16> {
    Seq::new(8, |k: int| spec_v6_group(v, k))
}

/// Reassembling the eight groups drawn from an address gives the address
/// back.
pub proof fn lemma_v6_groups_assemble(v: u128)
    by (bit_vector)
    ensures
        ((v >> 112u128) as u16) * 0x1_0000_0000_0000_0000_0000_0000_0000 + ((
        v >> 96u128) as u16) * 0x1_0000_0000_0000_0000_0000_0000 + ((
        v >> 80u128) as u16) * 0x1_0000_0000_0000_0000_0000 + ((
        v >> 64u128) as u16) * 0x1_0000_0000_0000_0000 + ((v >> 48u128) as u16)
            * 0x1_0000_0000_0000 + ((v >> 32u128) as u16) * 0x1_0000_0000 + ((
        v >> 16u128) as u16) * 0x1_0000 + (v as u16) == v,
{
}

/// Every part is a well-formed hexadecimal group.
pub open spec fn all_hex_groups(ps: Seq<Seq<char>>) -> bool {
    forall|i: int| 0 <= i < ps.len() ==> is_hex_group_text(#[trigger] ps[i])
}

/// The group values of a list of hexadecimal group texts.
pub open spec fn hex_group_vals(ps: Seq<Seq<char>>) -> Seq<u16> {
    ps.map_values(|p: Seq<char>| (hex_val(p) as u16))
}

/// Every part is nonempty text.
pub open spec fn all_nonempty(ps: Seq<Seq<char>>) -> bool {
    forall|i: int| 0 <= i < ps.len() ==> (#[trigger] ps[i]).len() > 0
}

/// The group values of a run of parts that may end in an embedded IPv4
/// quad: every part but the last must be a hexadecimal group; a last part
/// holding a dot must be IPv4 text and contributes two groups.
pub open spec fn spec_tail_groups(ps: Seq<Seq<char>>) -> Option<Seq<u16>> {
    if ps.len() == 0 {
        Some(Seq::<u16>::empty())
    } else {
        let last = ps.last();
        if contains_char(last, '.') {
            if all_hex_groups(ps.drop_last()) && spec_parse_ipv4(last) is Some {
                let v4 = spec_parse_ipv4(last)->Some_0;
                Some(
                    hex_group_vals(ps.drop_last()) + seq![(v4 >> 16u32) as u16, v4 as u16],
                )
            } else {
                None
            }
        } else {
            if all_hex_groups(ps) {
                Some(hex_group_vals(ps))
            } else {
                None
            }
        }
    }
}

/// A run of zero groups.
pub open spec fn zero_groups(n: nat) -> Seq<u16> {
    Seq::new(n, |i: int| 0u16)
}

/// The address denoted by head groups, a `::` gap, and tail groups: the gap
/// stands for at least one zero group, so head and tail together hold at
/// most seven.
pub open spec fn spec_v6_with_gap(head: Seq<Seq<char>>, tail: Seq<Seq<char>>) -> Option<u128> {
    if all_hex_groups(head) && spec_tail_groups(tail) is Some {
        let hg = hex_group_vals(head);
        let tg = spec_tail_groups(tail)->Some_0;
        if hg.len() + tg.len() <= 7 {
            Some(u128_of_groups(hg + zero_groups((8 - hg.len() - tg.len()) as nat) + tg))
        } else {
            None
        }
    } else {
        None
    }
}

/// The value of IPv6 address text, split at every colon. Without a `::` the
/// parts must supply exactly eight groups; `::` shows up as empty parts, in
/// exactly one of the shapes below, and fills the middle with zero groups.
pub open spec fn spec_parse_ipv6(s: Seq<char>) -> Option<u128> {
    let ps = split_seq(s, ':');
    let n = ps.len() as int;
    if all_nonempty(ps) {
        if spec_tail_groups(ps) is Some && spec_tail_groups(ps)->Some_0.len() == 8 {
            Some(u128_of_groups(spec_tail_groups(ps)->Some_0))
        } else {
            None
        }
    } else if n == 3 && ps[0].len() == 0 && ps[1].len() == 0 && ps[2].len() == 0 {
        Some(0)
    } else if n >= 3 && ps[0].len() == 0 && ps[1].len() == 0 {
        spec_v6_with_gap(Seq::<Seq<char>>::empty(), ps.skip(2))
    } else if n >= 3 && ps[n - 1].len() == 0 && ps[n - 2].len() == 0 {
        spec_v6_with_gap(ps.take(n - 2), Seq::<Seq<char>>::empty())
    } else if ps[0].len() > 0 && ps[n - 1].len() > 0 && (exists|i: int|
        0 < i < n - 1 && (#[trigger] ps[i]).len() == 0) && (forall|i: int, j: int|
        0 <= i < n && 0 <= j < n && (#[trigger] ps[i]).len() == 0 && (#[trigger] ps[j]).len() == 0
            ==> i == j) {
        let i0 = choose|i: int| 0 < i < n - 1 && (#[trigger] ps[i]).len() == 0;
        spec_v6_with_gap(ps.take(i0), ps.skip(i0 + 1))
    } else {
        None
    }
}

/// Assemble eight group values into the address they denote.
pub fn u128_from_groups(gs: &Vec<u16>) -> (r: u128)
    requires
        gs@.len() == 8,
    ensures
        r == u128_of_groups(gs@),
{
    let g0 = gs[0] as u128;
    let g1 = gs[1] as u128;
    let g2 = gs[2] as u128;
    let g3 = gs[3] as u128;
    let g4 = gs[4] as u128;
    let g5 = gs[5] as u128;
    let g6 = gs[6] as u128;
    let g7 = gs[7] as u128;
    g0 * 0x1_0000_0000_0000_0000_0000_0000_0000 + g1 * 0x1_0000_0000_0000_0000_0000_0000 + g2
        * 0x1_0000_0000_0000_0000_0000 + g3 * 0x1_0000_0000_0000_0000 + g4 * 0x1_0000_0000_0000
        + g5 * 0x1_0000_0000 + g6 * 0x1_0000 + g7
}

/// Read the group values of the parts from `from` up to `to`, the last of
/// which may be an embedded IPv4 quad.
#[verifier::loop_isolation(false)]
pub fn tail_groups_range(parts: &Vec<String>, from: usize, to: usize) -> (r: Option<Vec<u16>>)
    requires
        from <= to <= parts@.len(),
    ensures
        match r {
            Some(v) => spec_tail_groups(views(parts@).subrange(from as int, to as int)) == Some(
                v@,
            ),
            None => spec_tail_groups(views(parts@).subrange(from as int, to as int)) is None,
        },
{
    let ghost ps = views(parts@).subrange(from as int, to as int);
    if from == to {
        let r: Vec<u16> = Vec::new();
        proof {
            assert(ps.len() == 0);
            assert(r@ =~= Seq::<u16>::empty());
        }
        return Some(r);
    }
    let last_idx = to - 1;
    proof {
        assert(ps.last() == views(parts@)[last_idx as int]);
        assert(ps.drop_last() =~= views(parts@).subrange(from as int, last_idx as int));
    }
    let mut gs: Vec<u16> = Vec::new();
    let mut i: usize = from;
    proof {
        assert(views(parts@).subrange(from as int, from as int) =~= Seq::<Seq<char>>::empty());
        assert(gs@ =~= hex_group_vals(views(parts@).subrange(from as int, from as int)));
    }
    while i < last_idx
        invariant
            from <= i <= last_idx,
            all_hex_groups(views(parts@).subrange(from as int, i as int)),
            gs@ == hex_group_vals(views(parts@).subrange(from as int, i as int)),
        decreases last_idx - i,
    {
        match parse_hex_group(parts[i].as_str()) {
            Some(g) => {
                proof {
                    let sub0 = views(parts@).subrange(from as int, i as int);
                    let sub1 = views(parts@).subrange(from as int, i + 1);
                    assert(sub1.drop_last() =~= sub0);
                    assert(sub1.last() == views(parts@)[i as int]);
                    assert(hex_group_vals(sub1) =~= hex_group_vals(sub0).push(
                        (hex_val(views(parts@)[i as int]) as u16),
                    ));
                }
                gs.push(g);
            },
            None => {
                proof {
                    assert(!is_hex_group_text(ps[i - from]));
                    assert(ps.drop_last()[i - from] == ps[i - from]);
                }
                return None;
            },
        }
        i += 1;
    }
    if has_char(parts[last_idx].as_str(), '.') {
        match parse_ipv4(parts[last_idx].as_str()) {
            Some(v4) => {
                gs.push((v4 >> 16u32) as u16);
                gs.push(v4 as u16);
                proof {
                    assert(gs@ =~= hex_group_vals(ps.drop_last()) + seq![
                        (v4 >> 16u32) as u16,
                        v4 as u16,
                    ]);
                }
                Some(gs)
            },
            None => None,
        }
    } else {
        match parse_hex_group(parts[last_idx].as_str()) {
            Some(g) => {
                gs.push(g);
                proof {
                    assert(forall|k: int|
                        0 <= k < ps.len() - 1 ==> #[trigger] ps[k] == ps.drop_last()[k]);
                    assert(gs@ =~= hex_group_vals(ps));
                }
                Some(gs)
            },
            None => None,
        }
    }
}

/// Read the address denoted by head parts before a `::` gap and tail parts
/// after it.
#[verifier::loop_isolation(false)]
pub fn v6_from_gap(parts: &Vec<String>, h_end: usize, t_start: usize) -> (r: Option<u128>)
    requires
        h_end <= t_start <= parts@.len(),
    ensures
        r == spec_v6_with_gap(
            views(parts@).take(h_end as int),
            views(parts@).skip(t_start as int),
        ),
{
    let ghost head = views(parts@).take(h_end as int);
    let ghost tail = views(parts@).skip(t_start as int);
    let mut hg: Vec<u16> = Vec::new();
    let mut i: usize = 0;
    proof {
        assert(head.take(0) =~= Seq::<Seq<char>>::empty());
        assert(hg@ =~= hex_group_vals(head.take(0)));
    }
    while i < h_end
        invariant
            i <= h_end,
            all_hex_groups(head.take(i as int)),
            hg@ == hex_group_vals(head.take(i as int)),
        decreases h_end - i,
    {
        match parse_hex_group(parts[i].as_str()) {
            Some(g) => {
                proof {
                    assert(head.take(i + 1).drop_last() =~= head.take(i as int));
                    assert(head.take(i + 1).last() == head[i as int]);
                    assert(hex_group_vals(head.take(i + 1)) =~= hex_group_vals(
                        head.take(i as int),
                    ).push((hex_val(head[i as int]) as u16)));
                }
                hg.push(g);
            },
            None => {
                assert(!is_hex_group_text(head[i as int]));
                return None;
            },
        }
        i += 1;
    }
    proof {
        assert(head.take(h_end as int) =~= head);
    }
    let tg = match tail_groups_range(parts, t_start, parts.len()) {
        Some(v) => v,
        None => {
            proof {
                assert(views(parts@).subrange(t_start as int, parts@.len() as int) =~= tail);
            }
            return None;
        },
    };
    proof {
        assert(views(parts@).subrange(t_start as int, parts@.len() as int) =~= tail);
    }
    if hg.len() > 7 || tg.len() > 7 || hg.len() + tg.len() > 7 {
        return None;
    }
    let zn: usize = 8 - hg.len() - tg.len();
    let ghost hgs = hg@;
    let mut gs: Vec<u16> = hg;
    let mut k: usize = 0;
    proof {
        assert(gs@ =~= hgs + zero_groups(0));
    }
    while k < zn
        invariant
            k <= zn,
            gs@ == hgs + zero_groups(k as nat),
        decreases zn - k,
    {
        proof {
            assert(hgs + zero_groups((k + 1) as nat) =~= (hgs + zero_groups(k as nat)).push(
                0u16,
            ));
        }
        gs.push(0u16);
        k += 1;
    }
    let mut j: usize = 0;
    let ghost mid = gs@;
    while j < tg.len()
        invariant
            j <= tg@.len(),
            gs@ == mid + tg@.take(j as int),
        decreases tg@.len() - j,
    {
        proof {
            assert(mid + tg@.take(j + 1) =~= (mid + tg@.take(j as int)).push(tg@[j as int]));
        }
        let g = tg[j];
        gs.push(g);
        j += 1;
    }
    proof {
        assert(tg@.take(tg@.len() as int) =~= tg@);
        assert(gs@ =~= hgs + zero_groups((8 - hgs.len() - tg@.len()) as nat) + tg@);
    }
    Some(u128_from_groups(&gs))
}

/// Read IPv6 address text.
#[verifier::loop_isolation(false)]
pub fn parse_ipv6(s: &str) -> (r: Option<u128>)
    ensures
        r == spec_parse_ipv6(s@),
{
    let parts = split_str(s, ':');
    let ghost ps = views(parts@);
    proof {
        lemma_split_len(s@, ':');
    }
    let n = parts.len();
    let mut cnt: usize = 0;
    let mut first: usize = n;
    let mut second: usize = n;
    let mut i: usize = 0;
    while i < n
        invariant
            i <= n,
            cnt == 0 ==> (first == n && forall|j: int| 0 <= j < i ==> (#[trigger] ps[j]).len()
                > 0),
            cnt >= 1 ==> (first < i && ps[first as int].len() == 0 && forall|j: int|
                0 <= j < first ==> (#[trigger] ps[j]).len() > 0),
            cnt == 1 ==> (forall|j: int| first < j < i ==> (#[trigger] ps[j]).len() > 0),
            cnt >= 2 ==> (first < second < i && ps[second as int].len() == 0),
        decreases n - i,
    {
        if parts[i].as_str().is_empty() {
            if cnt == 0 {
                first = i;
                cnt = 1;
            } else if cnt == 1 {
                second = i;
                cnt = 2;
            }
        }
        i += 1;
    }
    if cnt == 0 {
        assert(all_nonempty(ps));
        proof {
            assert(views(parts@).subrange(0, n as int) =~= ps);
        }
        match tail_groups_range(&parts, 0, n) {
            Some(gs) => {
                if gs.len() == 8 {
                    Some(u128_from_groups(&gs))
                } else {
                    None
                }
            },
            None => None,
        }
    } else if n == 3 && parts[0].as_str().is_empty() && parts[1].as_str().is_empty()
        && parts[2].as_str().is_empty() {
        Some(0)
    } else if n >= 3 && parts[0].as_str().is_empty() && parts[1].as_str().is_empty() {
        proof {
            assert(!all_nonempty(ps));
            assert(views(parts@).take(0) =~= Seq::<Seq<char>>::empty());
        }
        v6_from_gap(&parts, 0, 2)
    } else if n >= 3 && parts[n - 1].as_str().is_empty() && parts[n - 2].as_str().is_empty() {
        proof {
            assert(!all_nonempty(ps));
            assert(views(parts@).skip(n as int) =~= Seq::<Seq<char>>::empty());
        }
        v6_from_gap(&parts, n - 2, n)
    } else if !parts[0].as_str().is_empty() && !parts[n - 1].as_str().is_empty() && cnt == 1 {
        proof {
            assert(!all_nonempty(ps)) by {
                assert(ps[first as int].len() == 0);
            }
            assert(0 < first < n - 1);
            assert(forall|j: int|
                0 <= j < n && j != first ==> (#[trigger] ps[j]).len() > 0);
            let i0 = choose|i: int| 0 < i < n - 1 && (#[trigger] ps[i]).len() == 0;
            assert(ps[i0].len() == 0);
            assert(i0 == first);
        }
        v6_from_gap(&parts, first, first + 1)
    } else {
        proof {
            assert(!all_nonempty(ps)) by {
                assert(ps[first as int].len() == 0);
            }
            if ps[0].len() > 0 && ps[n - 1].len() > 0 {
                assert(0 < first < n - 1);
                if cnt >= 2 {
                    assert(ps[first as int].len() == 0 && ps[second as int].len() == 0 && first
                        != second);
                }
            }
        }
        None
    }
}

/// The length of the run of zero groups starting at position `i`.
pub open spec fn run_len_at(gs: Seq<u16>, i: int) -> int
    decreases gs.len() - i,
{
    if i < 0 || i >= gs.len() || gs[i] != 0 {
        0
    } else {
        1 + run_len_at(gs, i + 1)
    }
}

/// A zero run covers only zero groups, fits in the list, and is maximal on
/// its right end.
pub proof fn lemma_run_len(gs: Seq<u16>, i: int)
    requires
        0 <= i <= gs.len(),
    ensures
        0 <= run_len_at(gs, i) <= gs.len() - i,
        forall|j: int| i <= j < i + run_len_at(gs, i) ==> gs[j] == 0,
        i + run_len_at(gs, i) < gs.len() ==> gs[i + run_len_at(gs, i)] != 0,
    decreases gs.len() - i,
{
    if i < gs.len() && gs[i] == 0 {
        lemma_run_len(gs, i + 1);
    }
}

/// The leftmost longest zero run at or after position `i`: a start (the
/// length of the list when there is none) and a length.
pub open spec fn best_run_from(gs: Seq<u16>, i: int) -> (int, int)
    decreases gs.len() - i,
{
    if i < 0 || i >= gs.len() {
        (gs.len() as int, 0)
    } else {
        let rest = best_run_from(gs, i + 1);
        let l = run_len_at(gs, i);
        if l >= rest.1 {
            (i, l)
        } else {
            rest
        }
    }
}

/// What the leftmost longest zero run satisfies: it is a run, nothing at or
/// after `i` runs longer, and nothing earlier ties it.
pub proof fn lemma_best_run_from(gs: Seq<u16>, i: int)
    requires
        0 <= i <= gs.len(),
    ensures
        ({
            let br = best_run_from(gs, i);
            &&& i <= br.0 <= gs.len()
            &&& br.1 >= 0
            &&& (br.0 < gs.len() ==> br.1 == run_len_at(gs, br.0))
            &&& (br.0 == gs.len() ==> br.1 == 0)
            &&& forall|j: int| i <= j < gs.len() ==> run_len_at(gs, j) <= br.1
            &&& forall|j: int|
                i <= j < gs.len() && run_len_at(gs, j) == br.1 ==> br.0 <= j
        }),
    decreases gs.len() - i,
{
    if i < gs.len() {
        lemma_best_run_from(gs, i + 1);
        lemma_run_len(gs, i);
    }
}

/// The hexadecimal texts of a list of group values.
pub open spec fn hex_group_strs(gs: Seq<u16>) -> Seq<Seq<char>> {
    gs.map_values(|g: u16| hex_str(g as nat))
}

/// Written groups are well-formed nonempty hexadecimal texts, free of
/// punctuation, and read back to the values they came from.
pub proof fn lemma_hex_strs_vals(gs: Seq<u16>)
    ensures
        all_hex_groups(hex_group_strs(gs)),
        all_nonempty(hex_group_strs(gs)),
        hex_group_vals(hex_group_strs(gs)) == gs,
        forall|k: int|
            0 <= k < gs.len() ==> free_of(#[trigger] hex_group_strs(gs)[k], ':') && free_of(
                hex_group_strs(gs)[k],
                '.',
            ),
{
    let strs = hex_group_strs(gs);
    assert forall|k: int| 0 <= k < gs.len() implies is_hex_group_text(#[trigger] strs[k])
        && strs[k].len() > 0 && free_of(strs[k], ':') && free_of(strs[k], '.') && hex_val(
        strs[k],
    ) == gs[k] as nat by {
        lemma_hex_str_props(gs[k] as nat);
        lemma_hex_digits_free(hex_str(gs[k] as nat));
    }
    assert(hex_group_vals(strs) =~= gs);
}

/// The parts of an address's text: hexadecimal groups, with the leftmost
/// longest zero run of two or more groups elided as empty parts.
pub open spec fn spec_v6_parts(v: u128) -> Seq<Seq<char>> {
    let gs = spec_v6_groups(v);
    let br = best_run_from(gs, 0);
    if br.1 >= 2 {
        if br.0 == 0 && br.1 == 8 {
            seq![Seq::<char>::empty(), Seq::<char>::empty(), Seq::<char>::empty()]
        } else if br.0 == 0 {
            seq![Seq::<char>::empty(), Seq::<char>::empty()] + hex_group_strs(gs.skip(br.1))
        } else if br.0 + br.1 == 8 {
            hex_group_strs(gs.take(br.0)) + seq![Seq::<char>::empty(), Seq::<char>::empty()]
        } else {
            hex_group_strs(gs.take(br.0)) + seq![Seq::<char>::empty()] + hex_group_strs(
                gs.skip(br.0 + br.1),
            )
        }
    } else {
        hex_group_strs(gs)
    }
}

/// The text of an address.
pub open spec fn spec_format_ipv6(v: u128) -> Seq<char> {
    join_seq(spec_v6_parts(v), ':')
}

/// Append the written forms of the groups from `from` up to `to`.
#[verifier::loop_isolation(false)]
pub fn push_hex_groups(parts: &mut Vec<String>, groups: &Vec<u16>, from: usize, to: usize)
    requires
        from <= to <= groups@.len(),
    ensures
        views(final(parts)@) == views(old(parts)@) + hex_group_strs(
            groups@.subrange(from as int, to as int),
        ),
{
    let mut k: usize = from;
    proof {
        assert(views(parts@) =~= views(old(parts)@) + hex_group_strs(
            groups@.subrange(from as int, from as int),
        ));
    }
    while k < to
        invariant
            from <= k <= to,
            views(parts@) == views(old(parts)@) + hex_group_strs(
                groups@.subrange(from as int, k as int),
            ),
        decreases to - k,
    {
        let gstr = fmt_u16_hex(groups[k]);
        proof {
            let sub0 = groups@.subrange(from as int, k as int);
            let sub1 = groups@.subrange(from as int, k + 1);
            assert(sub1.drop_last() =~= sub0);
            assert(sub1.last() == groups@[k as int]);
            assert(hex_group_strs(sub1) =~= hex_group_strs(sub0).push(
                hex_str(groups@[k as int] as nat),
            ));
            assert(views(parts@.push(gstr)) =~= views(parts@).push(gstr@));
            assert(views(parts@).push(gstr@) =~= views(old(parts)@) + hex_group_strs(sub1));
        }
        parts.push(gstr);
        k += 1;
    }
}

/// Write an address: hexadecimal groups separated by colons, the leftmost
/// longest zero run of two or more groups written `::`.
#[verifier::loop_isolation(false)]
pub fn format_ipv6(v: u128) -> (r: String)
    ensures
        r@ == spec_format_ipv6(v),
{
    let mut groups: Vec<u16> = Vec::new();
    groups.push((v >> 112u128) as u16);
    groups.push((v >> 96u128) as u16);
    groups.push((v >> 80u128) as u16);
    groups.push((v >> 64u128) as u16);
    groups.push((v >> 48u128) as u16);
    groups.push((v >> 32u128) as u16);
    groups.push((v >> 16u128) as u16);
    groups.push(v as u16);
    let ghost gs = spec_v6_groups(v);
    proof {
        assert(groups@ =~= gs);
    }
    let mut bs: usize = 8;
    let mut bl: usize = 0;
    let mut run: usize = 0;
    let mut i: usize = 8;
    while i > 0
        invariant
            i <= 8,
            groups@ == gs,
            gs.len() == 8,
            run as int == run_len_at(gs, i as int),
            run <= 8,
            bl <= 8,
            bs <= 8,
            (bs as int, bl as int) == best_run_from(gs, i as int),
        decreases i,
    {
        let idx = i - 1;
        proof {
            lemma_run_len(gs, idx as int);
        }
        if groups[idx] != 0 {
            run = 0;
        } else {
            run = run + 1;
        }
        if run >= bl {
            bs = idx;
            bl = run;
        }
        i = idx;
    }
    proof {
        lemma_best_run_from(gs, 0);
        if bs < 8 {
            lemma_run_len(gs, bs as int);
        }
    }
    let mut parts: Vec<String> = Vec::new();
    if bl >= 2 {
        if bs == 0 && bl == 8 {
            parts.push(String::new());
            parts.push(String::new());
            parts.push(String::new());
            proof {
                assert(views(parts@) =~= spec_v6_parts(v));
            }
        } else if bs == 0 {
            parts.push(String::new());
            parts.push(String::new());
            push_hex_groups(&mut parts, &groups, bl, 8);
            proof {
                assert(gs.subrange(bl as int, 8) =~= gs.skip(bl as int));
                assert(views(parts@) =~= spec_v6_parts(v));
            }
        } else if bs + bl == 8 {
            push_hex_groups(&mut parts, &groups, 0, bs);
            parts.push(String::new());
            parts.push(String::new());
            proof {
                assert(gs.subrange(0, bs as int) =~= gs.take(bs as int));
                assert(views(parts@) =~= spec_v6_parts(v));
            }
        } else {
            push_hex_groups(&mut parts, &groups, 0, bs);
            parts.push(String::new());
            push_hex_groups(&mut parts, &groups, bs + bl, 8);
            proof {
                assert(gs.subrange(0, bs as int) =~= gs.take(bs as int));
                assert(gs.subrange(bs + bl, 8) =~= gs.skip(bs + bl));
                assert(views(parts@) =~= spec_v6_parts(v));
            }
        }
    } else {
        push_hex_groups(&mut parts, &groups, 0, 8);
        proof {
            assert(gs.subrange(0, 8) =~= gs);
            assert(views(parts@) =~= spec_v6_parts(v));
        }
    }
    proof {
        reveal_strlit(":");
        assert(":"@.len() == 1 && ":"@[0] == ':');
        lemma_best_run_from(gs, 0);
        assert(parts@.len() >= 1);
    }
    join_with(&parts, ":")
}

/// The eight groups drawn from an address assemble back into it.
pub proof fn lemma_u128_of_v6_groups(v: u128)
    ensures
        u128_of_groups(spec_v6_groups(v)) == v,
{
    lemma_v6_groups_assemble(v);
}

/// Reading back a written address recovers it: the text of `v` parses to
/// `v`.
#[verifier::rlimit(100)]
pub proof fn lemma_parse_format_ipv6(v: u128)
    ensures
        spec_parse_ipv6(spec_format_ipv6(v)) == Some(v),
{
    let gs = spec_v6_groups(v);
    let br = best_run_from(gs, 0);
    let bs = br.0;
    let bl = br.1;
    lemma_best_run_from(gs, 0);
    lemma_run_len(gs, 0);
    if bs < 8 {
        lemma_run_len(gs, bs);
    }
    let ps = spec_v6_parts(v);
    lemma_hex_strs_vals(gs);
    lemma_hex_strs_vals(gs.take(bs));
    lemma_hex_strs_vals(gs.skip(bl));
    lemma_hex_strs_vals(gs.skip(bs + bl));
    assert(forall|i: int| 0 <= i < ps.len() ==> free_of(#[trigger] ps[i], ':'));
    assert(ps.len() >= 1);
    lemma_split_join(ps, ':');
    assert(split_seq(spec_format_ipv6(v), ':') == ps);
    lemma_u128_of_v6_groups(v);
    if bl >= 2 {
        if bs == 0 && bl == 8 {
            assert(forall|j: int| 0 <= j < 8 ==> gs[j] == 0);
            assert(u128_of_groups(gs) == 0);
            assert(ps[0].len() == 0);
            assert(!all_nonempty(ps));
            assert(spec_parse_ipv6(spec_format_ipv6(v)) == Some(0u128));
        } else if bs == 0 {
            let tail = hex_group_strs(gs.skip(bl));
            assert(ps =~= seq![Seq::<char>::empty(), Seq::<char>::empty()] + tail);
            assert(ps.len() == 2 + 8 - bl);
            assert(ps[0].len() == 0 && !all_nonempty(ps));
            assert(ps[2].len() > 0) by {
                assert(ps[2] == tail[0]);
            }
            assert(!(ps.len() == 3 && ps[2].len() == 0));
            assert(ps.skip(2) =~= tail);
            let tg = spec_tail_groups(tail);
            assert(tail.last() == hex_group_strs(gs.skip(bl)).last());
            assert(!contains_char(tail.last(), '.')) by {
                assert(tail.last() == tail[tail.len() - 1]);
            }
            assert(tg == Some(hex_group_vals(tail)));
            assert(hex_group_vals(tail) == gs.skip(bl));
            assert(spec_v6_with_gap(Seq::<Seq<char>>::empty(), tail) is Some) by {
                assert(hex_group_vals(Seq::<Seq<char>>::empty()) =~= Seq::<u16>::empty());
                assert(gs.skip(bl).len() == 8 - bl <= 7);
            }
            assert(hex_group_vals(Seq::<Seq<char>>::empty()) =~= Seq::<u16>::empty());
            assert(Seq::<u16>::empty() + zero_groups((bl) as nat) + gs.skip(bl) =~= gs) by {
                assert(forall|j: int| 0 <= j < bl ==> gs[j] == 0);
            }
            assert(spec_parse_ipv6(spec_format_ipv6(v)) == Some(u128_of_groups(gs)));
        } else if bs + bl == 8 {
            let head = hex_group_strs(gs.take(bs));
            assert(ps =~= head + seq![Seq::<char>::empty(), Seq::<char>::empty()]);
            let n = ps.len() as int;
            assert(n == bs + 2 >= 3);
            assert(ps[n - 1].len() == 0 && ps[n - 2].len() == 0);
            assert(!all_nonempty(ps)) by {
                assert(ps[n - 1].len() == 0);
            }
            assert(ps[0].len() > 0) by {
                assert(ps[0] == head[0]);
            }
            assert(!(n == 3 && ps[0].len() == 0 && ps[1].len() == 0 && ps[2].len() == 0));
            assert(!(ps[0].len() == 0 && ps[1].len() == 0)) by {
                if bs == 1 {
                    assert(ps[0] == head[0]);
                } else {
                    assert(ps[0] == head[0] && ps[1] == head[1]);
                }
            }
            assert(ps.take(n - 2) =~= head);
            assert(spec_tail_groups(Seq::<Seq<char>>::empty()) == Some(Seq::<u16>::empty()));
            assert(hex_group_vals(head).len() == bs <= 7);
            assert(gs.take(bs) + zero_groups((8 - bs) as nat) + Seq::<u16>::empty() =~= gs) by {
                assert(forall|j: int| bs <= j < 8 ==> gs[j] == 0);
            }
            assert(spec_parse_ipv6(spec_format_ipv6(v)) == Some(u128_of_groups(gs)));
        } else {
            let head = hex_group_strs(gs.take(bs));
            let tail = hex_group_strs(gs.skip(bs + bl));
            assert(ps =~= head + seq![Seq::<char>::empty()] + tail);
            let n = ps.len() as int;
            assert(n == bs + 1 + (8 - bs - bl));
            assert(ps[bs as int].len() == 0);
            assert(!all_nonempty(ps)) by {
                assert(ps[bs as int].len() == 0);
            }
            assert(ps[0].len() > 0) by {
                assert(ps[0] == head[0]);
            }
            assert(ps[n - 1].len() > 0) by {
                assert(ps[n - 1] == tail[tail.len() - 1]);
            }
            assert(forall|i: int| 0 <= i < bs ==> ps[i] == head[i]);
            assert(forall|i: int| bs < i < n ==> ps[i] == tail[i - bs - 1]);
            assert(forall|i: int| 0 <= i < n && i != bs ==> (#[trigger] ps[i]).len() > 0);
            assert(exists|i: int| 0 < i < n - 1 && (#[trigger] ps[i]).len() == 0) by {
                assert(0 < bs < n - 1 && ps[bs as int].len() == 0);
            }
            assert(forall|i: int, j: int|
                0 <= i < n && 0 <= j < n && (#[trigger] ps[i]).len() == 0 && (
                #[trigger] ps[j]).len() == 0 ==> i == j);
            let i0 = choose|i: int| 0 < i < n - 1 && (#[trigger] ps[i]).len() == 0;
            assert(i0 == bs);
            assert(ps.take(bs as int) =~= head);
            assert(ps.skip(bs + 1) =~= tail);
            assert(!contains_char(tail.last(), '.')) by {
                assert(tail.last() == tail[tail.len() - 1]);
            }
            assert(spec_tail_groups(tail) == Some(hex_group_vals(tail)));
            assert(hex_group_vals(head).len() + hex_group_vals(tail).len() == 8 - bl <= 7);
            assert(gs.take(bs) + zero_groups((bl) as nat) + gs.skip(bs + bl) =~= gs) by {
                assert(forall|j: int| bs <= j < bs + bl ==> gs[j] == 0);
            }
            assert(spec_parse_ipv6(spec_format_ipv6(v)) == Some(u128_of_groups(gs)));
        }
    } else {
        assert(ps == hex_group_strs(gs));
        assert(all_nonempty(ps));
        assert(!contains_char(ps.last(), '.')) by {
            assert(ps.last() == ps[ps.len() - 1]);
        }
        assert(spec_tail_groups(ps) == Some(hex_group_vals(ps)));
        assert(hex_group_vals(ps) == gs);
        assert(gs.len() == 8);
        assert(spec_parse_ipv6(spec_format_ipv6(v)) == Some(u128_of_groups(gs)));
    }
}

} // verus!
