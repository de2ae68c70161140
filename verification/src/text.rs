//! Character-level building blocks for address text: decimal and hexadecimal
//! numerals, splitting on a separator and joining with one, and the lemmas
//! that make parsing and formatting inverses of each other.
use vstd::prelude::*;

verus! {

use vstd::string::StrSliceExecFns;
use vstd::string::StringExecFns;

/// An ASCII decimal digit.
pub open spec fn is_digit(c: char) -> bool {
    48 <= c as u32 <= 57
}

/// The value of a decimal digit.
pub open spec fn digit_val(c: char) -> nat
    recommends
        is_digit(c),
{
    (c as u32 - 48) as nat
}

/// An ASCII hexadecimal digit, either case.
pub open spec fn is_hex_digit(c: char) -> bool {
    is_digit(c) || 97 <= c as u32 <= 102 || 65 <= c as u32 <= 70
}

/// The value of a hexadecimal digit.
pub open spec fn hex_digit_val(c: char) -> nat
    recommends
        is_hex_digit(c),
{
    if is_digit(c) {
        (c as u32 - 48) as nat
    } else if 97 <= c as u32 <= 102 {
        (c as u32 - 87) as nat
    } else {
        (c as u32 - 55) as nat
    }
}

/// Every character of the text is a decimal digit.
pub open spec fn all_digits(s: Seq<char>) -> bool {
    forall|i: int| 0 <= i < s.len() ==> is_digit(#[trigger] s[i])
}

/// Every character of the text is a hexadecimal digit.
pub open spec fn all_hex_digits(s: Seq<char>) -> bool {
    forall|i: int| 0 <= i < s.len() ==> is_hex_digit(#[trigger] s[i])
}

/// The numeric value of a decimal numeral, most significant digit first.
pub open spec fn dec_val(s: Seq<char>) -> nat
    recommends
        all_digits(s),
    decreases s.len(),
{
    if s.len() == 0 {
        0
    } else {
        dec_val(s.drop_last()) * 10 + digit_val(s.last())
    }
}

/// The numeric value of a hexadecimal numeral, most significant digit first.
pub open spec fn hex_val(s: Seq<char>) -> nat
    recommends
        all_hex_digits(s),
    decreases s.len(),
{
    if s.len() == 0 {
        0
    } else {
        hex_val(s.drop_last()) * 16 + hex_digit_val(s.last())
    }
}

/// The text contains the character somewhere.
pub open spec fn contains_char(s: Seq<char>, c: char) -> bool {
    exists|i: int| 0 <= i < s.len() && s[i] == c
}

/// The text is free of the character.
pub open spec fn free_of(s: Seq<char>, c: char) -> bool {
    !contains_char(s, c)
}

/// The parts of the text cut at every occurrence of the separator, in order.
/// The empty text has one empty part; a trailing separator ends with an empty
/// part, exactly as iterating `str::split` does.
pub open spec fn split_seq(s: Seq<char>, sep: char) -> Seq<Seq<char>>
    decreases s.len(),
{
    if s.len() == 0 {
        seq![Seq::<char>::empty()]
    } else if s.last() == sep {
        split_seq(s.drop_last(), sep).push(Seq::<char>::empty())
    } else {
        let r = split_seq(s.drop_last(), sep);
        r.update(r.len() - 1, r.last().push(s.last()))
    }
}

/// The parts glued back together with the separator between them.
pub open spec fn join_seq(ps: Seq<Seq<char>>, sep: char) -> Seq<char>
    decreases ps.len(),
{
    if ps.len() == 0 {
        Seq::<char>::empty()
    } else if ps.len() == 1 {
        ps[0]
    } else {
        join_seq(ps.drop_last(), sep).push(sep) + ps.last()
    }
}

/// Splitting always yields at least one part.
pub proof fn lemma_split_len(s: Seq<char>, sep: char)
    ensures
        split_seq(s, sep).len() >= 1,
    decreases s.len(),
{
    if s.len() == 0 {
    } else {
        lemma_split_len(s.drop_last(), sep);
    }
}

/// A text free of the separator splits into itself alone.
pub proof fn lemma_split_free(s: Seq<char>, sep: char)
    requires
        free_of(s, sep),
    ensures
        split_seq(s, sep) == seq![s],
    decreases s.len(),
{
    if s.len() == 0 {
        assert(s =~= Seq::<char>::empty());
    } else {
        assert(s.last() != sep);
        assert(free_of(s.drop_last(), sep)) by {
            assert(forall|i: int| 0 <= i < s.len() - 1 ==> s.drop_last()[i] == s[i]);
        }
        lemma_split_free(s.drop_last(), sep);
        assert(split_seq(s, sep) =~= seq![s.drop_last().push(s.last())]);
        assert(s.drop_last().push(s.last()) =~= s);
        assert(split_seq(s, sep) =~= seq![s]);
    }
}

/// Appending a separator and then a separator-free text adds one part.
pub proof fn lemma_split_append(s: Seq<char>, t: Seq<char>, sep: char)
    requires
        free_of(t, sep),
    ensures
        split_seq(s.push(sep) + t, sep) == split_seq(s, sep).push(t),
    decreases t.len(),
{
    lemma_split_len(s, sep);
    if t.len() == 0 {
        let u = s.push(sep);
        assert(u + t =~= u);
        assert(u.len() > 0 && u.last() == sep);
        assert(u.drop_last() =~= s);
        assert(split_seq(u, sep) == split_seq(u.drop_last(), sep).push(Seq::<char>::empty()));
        assert(t =~= Seq::<char>::empty());
    } else {
        let t0 = t.drop_last();
        let c = t.last();
        assert(c != sep);
        assert(free_of(t0, sep)) by {
            assert(forall|i: int| 0 <= i < t.len() - 1 ==> t0[i] == t[i]);
        }
        lemma_split_append(s, t0, sep);
        let u = s.push(sep) + t;
        assert(u.len() > 0);
        assert(u.last() == c);
        assert(u.drop_last() =~= s.push(sep) + t0);
        let r = split_seq(u.drop_last(), sep);
        assert(r == split_seq(s, sep).push(t0));
        assert(r.len() >= 1);
        assert(r.last() == t0);
        assert(split_seq(u, sep) == r.update(r.len() - 1, t0.push(c)));
        assert(t0.push(c) =~= t);
        assert(r.update(r.len() - 1, t) =~= split_seq(s, sep).push(t));
    }
}

/// Splitting undoes joining, as long as every part is free of the separator.
pub proof fn lemma_split_join(ps: Seq<Seq<char>>, sep: char)
    requires
        ps.len() >= 1,
        forall|i: int| 0 <= i < ps.len() ==> free_of(#[trigger] ps[i], sep),
    ensures
        split_seq(join_seq(ps, sep), sep) == ps,
    decreases ps.len(),
{
    if ps.len() == 1 {
        lemma_split_free(ps[0], sep);
        assert(seq![ps[0]] =~= ps);
    } else {
        let ps0 = ps.drop_last();
        assert(forall|i: int| 0 <= i < ps0.len() ==> ps0[i] == ps[i]);
        lemma_split_join(ps0, sep);
        assert(join_seq(ps, sep) == join_seq(ps0, sep).push(sep) + ps.last());
        lemma_split_append(join_seq(ps0, sep), ps.last(), sep);
        assert(split_seq(join_seq(ps, sep), sep) == split_seq(join_seq(ps0, sep), sep).push(
            ps.last(),
        ));
        assert(ps0.push(ps.last()) =~= ps);
    }
}

/// A character of the whole text that is not the separator sits in one of the
/// parts of the split.
pub proof fn lemma_split_carries_char(s: Seq<char>, sep: char, c: char)
    requires
        contains_char(s, c),
        c != sep,
    ensures
        exists|i: int|
            0 <= i < split_seq(s, sep).len() && contains_char(#[trigger] split_seq(s, sep)[i], c),
    decreases s.len(),
{
    lemma_split_len(s, sep);
    let r = split_seq(s, sep);
    if s.last() == c {
        assert(s.len() > 0);
        let r0 = split_seq(s.drop_last(), sep);
        lemma_split_len(s.drop_last(), sep);
        assert(r == r0.update(r0.len() - 1, r0.last().push(c)));
        assert(r[r.len() - 1].last() == c);
        assert(contains_char(r[r.len() - 1], c));
    } else {
        assert(s.len() > 0);
        assert(contains_char(s.drop_last(), c)) by {
            let j = choose|j: int| 0 <= j < s.len() && s[j] == c;
            assert(j < s.len() - 1);
            assert(s.drop_last()[j] == c);
        }
        lemma_split_carries_char(s.drop_last(), sep, c);
        let r0 = split_seq(s.drop_last(), sep);
        let i = choose|i: int| 0 <= i < r0.len() && contains_char(r0[i], c);
        if s.last() == sep {
            assert(r[i] == r0[i]);
            assert(contains_char(r[i], c));
        } else {
            if i < r0.len() - 1 {
                assert(r[i] == r0[i]);
                assert(contains_char(r[i], c));
            } else {
                let j = choose|j: int| 0 <= j < r0[i].len() && r0[i][j] == c;
                assert(r[i] == r0[i].push(s.last()));
                assert(r[i][j] == c);
                assert(contains_char(r[i], c));
            }
        }
    }
}

/// The character of a decimal digit value.
pub open spec fn digit_char(d: nat) -> char
    recommends
        d < 10,
{
    if d == 0 {
        '0'
    } else if d == 1 {
        '1'
    } else if d == 2 {
        '2'
    } else if d == 3 {
        '3'
    } else if d == 4 {
        '4'
    } else if d == 5 {
        '5'
    } else if d == 6 {
        '6'
    } else if d == 7 {
        '7'
    } else if d == 8 {
        '8'
    } else {
        '9'
    }
}

/// The character of a hexadecimal digit value, lower case.
pub open spec fn hex_char(d: nat) -> char
    recommends
        d < 16,
{
    if d < 10 {
        digit_char(d)
    } else if d == 10 {
        'a'
    } else if d == 11 {
        'b'
    } else if d == 12 {
        'c'
    } else if d == 13 {
        'd'
    } else if d == 14 {
        'e'
    } else {
        'f'
    }
}

/// The decimal numeral of a number, without leading zeros.
pub open spec fn dec_str(n: nat) -> Seq<char>
    decreases n,
{
    if n < 10 {
        seq![digit_char(n)]
    } else {
        dec_str(n / 10).push(digit_char(n % 10))
    }
}

/// The hexadecimal numeral of a number, lower case, without leading zeros.
pub open spec fn hex_str(n: nat) -> Seq<char>
    decreases n,
{
    if n < 16 {
        seq![hex_char(n)]
    } else {
        hex_str(n / 16).push(hex_char(n % 16))
    }
}

/// The decimal numeral of a number is made of digits, has no leading zero,
/// reads back to the number, and is as short as the number is small.
pub proof fn lemma_dec_str_props(n: nat)
    ensures
        all_digits(dec_str(n)),
        dec_val(dec_str(n)) == n,
        dec_str(n).len() >= 1,
        n > 0 ==> dec_str(n)[0] != '0',
        n < 10 ==> dec_str(n).len() == 1,
        n < 100 ==> dec_str(n).len() <= 2,
        n < 1000 ==> dec_str(n).len() <= 3,
    decreases n,
{
    if n < 10 {
        let s = dec_str(n);
        assert(s.drop_last() =~= Seq::<char>::empty());
        assert(dec_val(Seq::<char>::empty()) == 0);
        assert(dec_val(s) == digit_val(digit_char(n)));
    } else {
        assert(n / 10 < n && n / 10 >= 1 && n % 10 < 10) by (nonlinear_arith)
            requires
                n >= 10,
        ;
        lemma_dec_str_props(n / 10);
        let s0 = dec_str(n / 10);
        let s = dec_str(n);
        assert(s == s0.push(digit_char(n % 10)));
        assert(s.drop_last() =~= s0);
        assert(dec_val(s) == dec_val(s0) * 10 + digit_val(digit_char(n % 10)));
        assert(dec_val(s) == (n / 10) * 10 + n % 10);
        assert((n / 10) * 10 + n % 10 == n) by (nonlinear_arith);
        assert(s[0] == s0[0]);
        assert(n < 100 ==> n / 10 < 10);
        assert(n < 1000 ==> n / 10 < 100);
    }
}

/// The hexadecimal numeral of a number is made of hexadecimal digits, reads
/// back to the number, and fits in four digits below 65536.
pub proof fn lemma_hex_str_props(n: nat)
    ensures
        all_hex_digits(hex_str(n)),
        hex_val(hex_str(n)) == n,
        hex_str(n).len() >= 1,
        n < 16 ==> hex_str(n).len() == 1,
        n < 256 ==> hex_str(n).len() <= 2,
        n < 4096 ==> hex_str(n).len() <= 3,
        n < 65536 ==> hex_str(n).len() <= 4,
    decreases n,
{
    if n < 16 {
        let s = hex_str(n);
        assert(s.drop_last() =~= Seq::<char>::empty());
        assert(hex_val(Seq::<char>::empty()) == 0);
        assert(hex_val(s) == hex_digit_val(hex_char(n)));
    } else {
        assert(n / 16 < n && n / 16 >= 1 && n % 16 < 16) by (nonlinear_arith)
            requires
                n >= 16,
        ;
        lemma_hex_str_props(n / 16);
        let s0 = hex_str(n / 16);
        let s = hex_str(n);
        assert(s == s0.push(hex_char(n % 16)));
        assert(s.drop_last() =~= s0);
        assert(hex_val(s) == hex_val(s0) * 16 + hex_digit_val(hex_char(n % 16)));
        assert(hex_val(s) == (n / 16) * 16 + n % 16);
        assert((n / 16) * 16 + n % 16 == n) by (nonlinear_arith);
        assert(n < 256 ==> n / 16 < 16);
        assert(n < 4096 ==> n / 16 < 256);
        assert(n < 65536 ==> n / 16 < 4096);
    }
}

/// Hexadecimal digits are neither separators nor dots: a numeral never
/// collides with the punctuation of address text.
pub proof fn lemma_hex_digits_free(s: Seq<char>)
    requires
        all_hex_digits(s),
    ensures
        free_of(s, '.'),
        free_of(s, ':'),
        free_of(s, '/'),
{
}

/// Growing a numeral never shrinks its value: the value of a prefix is a
/// lower bound for the value of the whole.
pub proof fn lemma_dec_val_prefix(s: Seq<char>, i: int)
    requires
        0 <= i <= s.len(),
    ensures
        dec_val(s.take(i)) <= dec_val(s),
    decreases s.len() - i,
{
    if i == s.len() {
        assert(s.take(i) =~= s);
    } else {
        assert(s.take(i + 1).drop_last() =~= s.take(i));
        assert(s.take(i + 1).last() == s[i]);
        assert(dec_val(s.take(i)) <= dec_val(s.take(i + 1)));
        lemma_dec_val_prefix(s, i + 1);
    }
}

/// Joining parts free of a character, with a separator other than it,
/// yields text free of it.
pub proof fn lemma_join_free(ps: Seq<Seq<char>>, sep: char, c: char)
    requires
        c != sep,
        forall|i: int| 0 <= i < ps.len() ==> free_of(#[trigger] ps[i], c),
    ensures
        free_of(join_seq(ps, sep), c),
    decreases ps.len(),
{
    if ps.len() <= 1 {
    } else {
        let ps0 = ps.drop_last();
        assert(forall|i: int| 0 <= i < ps0.len() ==> ps0[i] == ps[i]);
        lemma_join_free(ps0, sep, c);
        let j0 = join_seq(ps0, sep);
        let s = join_seq(ps, sep);
        assert(s == j0.push(sep) + ps.last());
        if contains_char(s, c) {
            let i = choose|i: int| 0 <= i < s.len() && s[i] == c;
            if i < j0.len() {
                assert(j0[i] == c);
            } else if i == j0.len() {
                assert(s[i] == sep);
            } else {
                assert(s[i] == ps.last()[i - j0.len() - 1]);
            }
        }
    }
}

/// Text joined from two or more parts holds the separator.
pub proof fn lemma_join_has_sep(ps: Seq<Seq<char>>, sep: char)
    requires
        ps.len() >= 2,
    ensures
        contains_char(join_seq(ps, sep), sep),
{
    let j0 = join_seq(ps.drop_last(), sep);
    let s = join_seq(ps, sep);
    assert(s == j0.push(sep) + ps.last());
    assert(s[j0.len() as int] == sep);
}

/// The text contains the other text somewhere as a block.
pub open spec fn contains_seq(hay: Seq<char>, needle: Seq<char>) -> bool {
    exists|k: int|
        0 <= k && k + needle.len() <= hay.len() && #[trigger] hay.subrange(k, k + needle.len())
            == needle
}

/// Whether the string contains the other string, as `str::contains` tells
/// it.
#[verifier::loop_isolation(false)]
pub fn contains_str(hay: &str, needle: &str) -> (r: bool)
    ensures
        r == contains_seq(hay@, needle@),
{
    let hn = hay.unicode_len();
    let nn = needle.unicode_len();
    if nn > hn {
        return false;
    }
    let mut k: usize = 0;
    while k <= hn - nn
        invariant
            nn <= hn,
            k <= hn - nn + 1,
            forall|k2: int| 0 <= k2 < k ==> #[trigger] hay@.subrange(k2, k2 + nn) != needle@,
        decreases hn - nn + 1 - k,
    {
        let mut j: usize = 0;
        let mut ok = true;
        while j < nn
            invariant
                j <= nn,
            k <= hn - nn,
            ok <==> (forall|j2: int| 0 <= j2 < j ==> hay@[k + j2] == needle@[j2]),
            decreases nn - j,
        {
            if hay.get_char(k + j) != needle.get_char(j) {
                ok = false;
            }
            j += 1;
        }
        if ok {
            proof {
                assert(hay@.subrange(k as int, k + nn) =~= needle@);
            }
            return true;
        }
        proof {
            assert(hay@.subrange(k as int, k + nn) != needle@) by {
                if hay@.subrange(k as int, k + nn) == needle@ {
                    assert(forall|j2: int|
                        0 <= j2 < nn ==> hay@[k + j2] == #[trigger] hay@.subrange(
                            k as int,
                            k + nn,
                        )[j2]);
                }
            }
        }
        k += 1;
    }
    false
}

/// The character views of a list of strings.
pub open spec fn views(ps: Seq<String>) -> Seq<Seq<char>> {
    ps.map_values(|p: String| p@)
}

/// Whether the string contains the character.
#[verifier::loop_isolation(false)]
pub fn has_char(s: &str, c: char) -> (r: bool)
    ensures
        r == contains_char(s@, c),
{
    let n = s.unicode_len();
    let mut i: usize = 0;
    while i < n
        invariant
            i <= n,
            forall|j: int| 0 <= j < i ==> s@[j] != c,
        decreases n - i,
    {
        if s.get_char(i) == c {
            return true;
        }
        i += 1;
    }
    false
}

/// Cut the string at every occurrence of the separator, as `str::split` does.
#[verifier::loop_isolation(false)]
pub fn split_str(s: &str, sep: char) -> (r: Vec<String>)
    ensures
        views(r@) == split_seq(s@, sep),
{
    let n = s.unicode_len();
    let mut parts: Vec<String> = Vec::new();
    let mut start: usize = 0;
    let mut i: usize = 0;
    proof {
        assert(s@.take(0) =~= Seq::<char>::empty());
        assert(s@.subrange(0, 0) =~= Seq::<char>::empty());
        assert(views(parts@).push(Seq::<char>::empty()) =~= seq![Seq::<char>::empty()]);
    }
    while i < n
        invariant
            start <= i <= n,
            views(parts@).push(s@.subrange(start as int, i as int)) == split_seq(
                s@.take(i as int),
                sep,
            ),
        decreases n - i,
    {
        let c = s.get_char(i);
        proof {
            assert(s@.take(i + 1).drop_last() =~= s@.take(i as int));
            assert(s@.take(i + 1).last() == s@[i as int]);
        }
        if c == sep {
            let piece = s.substring_char(start, i).to_owned();
            proof {
                assert(views(parts@.push(piece)) =~= views(parts@).push(piece@));
                let r0 = split_seq(s@.take(i as int), sep);
                assert(split_seq(s@.take(i + 1), sep) == r0.push(Seq::<char>::empty()));
                assert(s@.subrange(i + 1, i + 1) =~= Seq::<char>::empty());
            }
            parts.push(piece);
            start = i + 1;
        } else {
            proof {
                let r0 = split_seq(s@.take(i as int), sep);
                assert(r0.last() == s@.subrange(start as int, i as int));
                assert(split_seq(s@.take(i + 1), sep) == r0.update(
                    r0.len() - 1,
                    r0.last().push(s@[i as int]),
                ));
                assert(s@.subrange(start as int, i as int).push(s@[i as int]) =~= s@.subrange(
                    start as int,
                    i + 1,
                ));
                assert(r0.update(r0.len() - 1, s@.subrange(start as int, i + 1)) =~= views(
                    parts@,
                ).push(s@.subrange(start as int, i + 1)));
            }
        }
        i += 1;
    }
    let piece = s.substring_char(start, n).to_owned();
    proof {
        assert(s@.take(n as int) =~= s@);
        assert(views(parts@.push(piece)) =~= views(parts@).push(piece@));
    }
    parts.push(piece);
    parts
}

/// Glue the parts back together with the one-character separator between
/// them.
#[verifier::loop_isolation(false)]
pub fn join_with(parts: &Vec<String>, sep_str: &str) -> (r: String)
    requires
        parts@.len() >= 1,
        sep_str@.len() == 1,
    ensures
        r@ == join_seq(views(parts@), sep_str@[0]),
{
    let mut r: String = parts[0].as_str().to_owned();
    proof {
        assert(views(parts@).take(1) =~= seq![parts@[0]@]);
    }
    let mut i: usize = 1;
    while i < parts.len()
        invariant
            1 <= i <= parts@.len(),
            r@ == join_seq(views(parts@).take(i as int), sep_str@[0]),
        decreases parts@.len() - i,
    {
        r.append(sep_str);
        r.append(parts[i].as_str());
        proof {
            let vs = views(parts@);
            assert(vs.take(i + 1).drop_last() =~= vs.take(i as int));
            assert(vs.take(i + 1).last() == parts@[i as int]@);
            assert(sep_str@ =~= seq![sep_str@[0]]);
            assert(join_seq(vs.take(i + 1), sep_str@[0]) == join_seq(
                vs.take(i as int),
                sep_str@[0],
            ).push(sep_str@[0]) + parts@[i as int]@);
            assert(join_seq(vs.take(i as int), sep_str@[0]).push(sep_str@[0]) =~= join_seq(
                vs.take(i as int),
                sep_str@[0],
            ) + sep_str@);
        }
        i += 1;
    }
    proof {
        assert(views(parts@).take(parts@.len() as int) =~= views(parts@));
    }
    r
}

/// A block of one to three digits without a leading zero, valued at most
/// 255: the text of one IPv4 octet.
pub open spec fn is_octet_text(s: Seq<char>) -> bool {
    1 <= s.len() <= 3 && all_digits(s) && (s.len() > 1 ==> s[0] != '0') && dec_val(s) <= 255
}

/// The value of an octet text, or nothing.
pub open spec fn spec_parse_octet(s: Seq<char>) -> Option<u8> {
    if is_octet_text(s) {
        Some(dec_val(s) as u8)
    } else {
        None
    }
}

/// Read one IPv4 octet: up to three digits, no leading zero, at most 255.
#[verifier::loop_isolation(false)]
pub fn parse_octet(s: &str) -> (r: Option<u8>)
    ensures
        r == spec_parse_octet(s@),
{
    let n = s.unicode_len();
    if n < 1 || n > 3 {
        return None;
    }
    if n > 1 && s.get_char(0) == '0' {
        return None;
    }
    let mut val: u32 = 0;
    let mut i: usize = 0;
    while i < n
        invariant
            i <= n,
            all_digits(s@.take(i as int)),
            val == dec_val(s@.take(i as int)),
            i == 0 ==> val == 0,
            i == 1 ==> val <= 9,
            i == 2 ==> val <= 99,
            i == 3 ==> val <= 999,
        decreases n - i,
    {
        let c = s.get_char(i);
        let cv = c as u32;
        if !(48 <= cv && cv <= 57) {
            assert(!is_digit(s@[i as int]));
            return None;
        }
        proof {
            assert(s@.take(i + 1).drop_last() =~= s@.take(i as int));
            assert(s@.take(i + 1).last() == s@[i as int]);
            assert(i == 1 ==> dec_val(s@.take(1)) <= 9);
        }
        val = val * 10 + (cv - 48);
        i += 1;
    }
    proof {
        assert(s@.take(n as int) =~= s@);
    }
    if val > 255 {
        return None;
    }
    Some(val as u8)
}

/// A block of one to four hexadecimal digits: the text of one IPv6 group.
pub open spec fn is_hex_group_text(s: Seq<char>) -> bool {
    1 <= s.len() <= 4 && all_hex_digits(s)
}

/// A hexadecimal numeral of at most four digits stays below 65536.
pub proof fn lemma_hex_val_bound(s: Seq<char>)
    requires
        all_hex_digits(s),
    ensures
        s.len() == 0 ==> hex_val(s) == 0,
        s.len() <= 1 ==> hex_val(s) < 16,
        s.len() <= 2 ==> hex_val(s) < 256,
        s.len() <= 3 ==> hex_val(s) < 4096,
        s.len() <= 4 ==> hex_val(s) < 65536,
    decreases s.len(),
{
    if s.len() > 0 {
        assert(forall|i: int| 0 <= i < s.len() - 1 ==> s.drop_last()[i] == s[i]);
        lemma_hex_val_bound(s.drop_last());
        assert(is_hex_digit(s.last()));
        assert(hex_digit_val(s.last()) < 16);
    }
}

/// The value of a hex group text, or nothing.
pub open spec fn spec_parse_hex_group(s: Seq<char>) -> Option<u16> {
    if is_hex_group_text(s) {
        Some(hex_val(s) as u16)
    } else {
        None
    }
}

/// Read one IPv6 group: up to four hexadecimal digits of either case.
#[verifier::loop_isolation(false)]
pub fn parse_hex_group(s: &str) -> (r: Option<u16>)
    ensures
        r == spec_parse_hex_group(s@),
{
    let n = s.unicode_len();
    if n < 1 || n > 4 {
        return None;
    }
    let mut val: u32 = 0;
    let mut i: usize = 0;
    while i < n
        invariant
            i <= n,
            all_hex_digits(s@.take(i as int)),
            val == hex_val(s@.take(i as int)),
            val < 65536,
        decreases n - i,
    {
        let c = s.get_char(i);
        let cv = c as u32;
        let d: u32 = if 48 <= cv && cv <= 57 {
            cv - 48
        } else if 97 <= cv && cv <= 102 {
            cv - 87
        } else if 65 <= cv && cv <= 70 {
            cv - 55
        } else {
            assert(!is_hex_digit(s@[i as int]));
            return None;
        };
        proof {
            assert(s@.take(i + 1).drop_last() =~= s@.take(i as int));
            assert(s@.take(i + 1).last() == s@[i as int]);
            lemma_hex_val_bound(s@.take(i as int));
        }
        val = val * 16 + d;
        proof {
            lemma_hex_val_bound(s@.take(i + 1));
        }
        i += 1;
    }
    proof {
        assert(s@.take(n as int) =~= s@);
        lemma_hex_val_bound(s@);
    }
    Some(val as u16)
}

/// The value of a decimal prefix-length token, read as `u8::from_str` reads
/// it: an optional plus sign, then digits, leading zeros allowed, value at
/// most 255.
pub open spec fn spec_parse_u8_decimal(s: Seq<char>) -> Option<u8> {
    let body = if s.len() >= 1 && s[0] == '+' {
        s.skip(1)
    } else {
        s
    };
    if body.len() >= 1 && all_digits(body) && dec_val(body) <= 255 {
        Some(dec_val(body) as u8)
    } else {
        None
    }
}

/// Read a decimal number up to 255, as `u8::from_str` would.
#[verifier::loop_isolation(false)]
pub fn parse_u8_decimal(s: &str) -> (r: Option<u8>)
    ensures
        r == spec_parse_u8_decimal(s@),
{
    let n = s.unicode_len();
    let mut start: usize = 0;
    if n >= 1 && s.get_char(0) == '+' {
        start = 1;
    }
    let ghost body = if s@.len() >= 1 && s@[0] == '+' {
        s@.skip(1)
    } else {
        s@
    };
    proof {
        assert(body =~= s@.subrange(start as int, n as int));
    }
    if start >= n {
        return None;
    }
    let mut val: u32 = 0;
    let mut i: usize = start;
    while i < n
        invariant
            start <= i <= n,
            all_digits(s@.subrange(start as int, i as int)),
            val == dec_val(s@.subrange(start as int, i as int)),
            val <= 255,
        decreases n - i,
    {
        let c = s.get_char(i);
        let cv = c as u32;
        if !(48 <= cv && cv <= 57) {
            assert(!is_digit(body[i - start]));
            return None;
        }
        proof {
            assert(s@.subrange(start as int, i + 1).drop_last() =~= s@.subrange(
                start as int,
                i as int,
            ));
            assert(s@.subrange(start as int, i + 1).last() == s@[i as int]);
        }
        let nv = val * 10 + (cv - 48);
        if nv > 255 {
            proof {
                assert(body.take(i + 1 - start) =~= s@.subrange(start as int, i + 1));
                lemma_dec_val_prefix(body, i + 1 - start);
            }
            return None;
        }
        val = nv;
        i += 1;
    }
    proof {
        assert(s@.subrange(start as int, n as int) =~= body);
    }
    Some(val as u8)
}

/// The text of one decimal digit.
pub fn digit_str(d: u8) -> (r: &'static str)
    requires
        d < 10,
    ensures
        r@ == seq![digit_char(d as nat)],
{
    let r: &'static str = if d == 0 {
        "0"
    } else if d == 1 {
        "1"
    } else if d == 2 {
        "2"
    } else if d == 3 {
        "3"
    } else if d == 4 {
        "4"
    } else if d == 5 {
        "5"
    } else if d == 6 {
        "6"
    } else if d == 7 {
        "7"
    } else if d == 8 {
        "8"
    } else {
        "9"
    };
    proof {
        reveal_strlit("0");
        reveal_strlit("1");
        reveal_strlit("2");
        reveal_strlit("3");
        reveal_strlit("4");
        reveal_strlit("5");
        reveal_strlit("6");
        reveal_strlit("7");
        reveal_strlit("8");
        reveal_strlit("9");
        assert(r@ =~= seq![digit_char(d as nat)]);
    }
    r
}

/// The text of one hexadecimal digit, lower case.
pub fn hex_digit_str(d: u8) -> (r: &'static str)
    requires
        d < 16,
    ensures
        r@ == seq![hex_char(d as nat)],
{
    if d < 10 {
        digit_str(d)
    } else {
        let r: &'static str = if d == 10 {
            "a"
        } else if d == 11 {
            "b"
        } else if d == 12 {
            "c"
        } else if d == 13 {
            "d"
        } else if d == 14 {
            "e"
        } else {
            "f"
        };
        proof {
            reveal_strlit("a");
            reveal_strlit("b");
            reveal_strlit("c");
            reveal_strlit("d");
            reveal_strlit("e");
            reveal_strlit("f");
            assert(r@ =~= seq![hex_char(d as nat)]);
        }
        r
    }
}

/// Write a number below 256 in decimal, shortest form.
pub fn fmt_u8(n: u8) -> (r: String)
    ensures
        r@ == dec_str(n as nat),
{
    let mut r = String::new();
    if n >= 100 {
        r.append(digit_str(n / 100));
    }
    if n >= 10 {
        r.append(digit_str((n / 10) % 10));
    }
    r.append(digit_str(n % 10));
    proof {
        if n < 10 {
            assert(r@ =~= dec_str(n as nat));
        } else if n < 100 {
            assert(n / 10 < 10 && (n / 10) % 10 == n / 10) by (nonlinear_arith)
                requires
                    10 <= n < 100,
            ;
            assert((n as nat) / 10 == (n / 10) as nat && (n as nat) % 10 == (n % 10) as nat);
            assert(dec_str((n / 10) as nat) =~= seq![digit_char((n / 10) as nat)]);
            assert(dec_str(n as nat) == dec_str((n / 10) as nat).push(
                digit_char((n % 10) as nat),
            ));
            assert(r@ =~= dec_str(n as nat));
        } else {
            assert((n / 10) / 10 == n / 100 && n / 10 >= 10 && n / 100 < 10) by (nonlinear_arith)
                requires
                    n >= 100,
                    n < 256,
            ;
            assert(dec_str((n / 10) as nat) == dec_str((n / 100) as nat).push(
                digit_char(((n / 10) % 10) as nat),
            ));
            assert(dec_str((n / 100) as nat) =~= seq![digit_char((n / 100) as nat)]);
            assert((n as nat) / 10 == (n / 10) as nat && (n as nat) % 10 == (n % 10) as nat);
            assert(dec_str(n as nat) == dec_str((n / 10) as nat).push(
                digit_char((n % 10) as nat),
            ));
            assert(r@ =~= seq![
                digit_char((n / 100) as nat),
                digit_char(((n / 10) % 10) as nat),
                digit_char((n % 10) as nat),
            ]);
            assert(r@ =~= dec_str(n as nat));
        }
    }
    r
}

/// Write a number below 65536 in hexadecimal, lower case, shortest form.
pub fn fmt_u16_hex(n: u16) -> (r: String)
    ensures
        r@ == hex_str(n as nat),
{
    let mut r = String::new();
    if n >= 4096 {
        r.append(hex_digit_str((n / 4096) as u8));
    }
    if n >= 256 {
        r.append(hex_digit_str(((n / 256) % 16) as u8));
    }
    if n >= 16 {
        r.append(hex_digit_str(((n / 16) % 16) as u8));
    }
    r.append(hex_digit_str((n % 16) as u8));
    proof {
        assert((n / 16) / 16 == n / 256 && (n / 256) / 16 == n / 4096) by (nonlinear_arith);
        if n < 16 {
            assert(r@ =~= hex_str(n as nat));
        } else if n < 256 {
            assert(n / 16 < 16 && (n / 16) % 16 == n / 16) by (nonlinear_arith)
                requires
                    16 <= n < 256,
            ;
            assert((n as nat) / 16 == (n / 16) as nat && (n as nat) % 16 == (n % 16) as nat);
            assert(hex_str((n / 16) as nat) =~= seq![hex_char((n / 16) as nat)]);
            assert(hex_str(n as nat) == hex_str((n / 16) as nat).push(
                hex_char((n % 16) as nat),
            ));
            assert(r@ =~= hex_str(n as nat));
        } else if n < 4096 {
            assert(n / 16 >= 16 && n / 256 < 16) by (nonlinear_arith)
                requires
                    256 <= n < 4096,
            ;
            assert((n / 256) % 16 == n / 256);
            assert((n as nat) / 16 == (n / 16) as nat && (n as nat) % 16 == (n % 16) as nat);
            assert(((n / 16) as nat) / 16 == (n / 256) as nat && ((n / 16) as nat) % 16 == ((n
                / 16) % 16) as nat);
            assert(hex_str(n as nat) == hex_str((n / 16) as nat).push(
                hex_char((n % 16) as nat),
            ));
            assert(hex_str((n / 16) as nat) == hex_str((n / 256) as nat).push(
                hex_char(((n / 16) % 16) as nat),
            ));
            assert(hex_str((n / 256) as nat) =~= seq![hex_char((n / 256) as nat)]);
            assert(r@ =~= hex_str(n as nat));
        } else {
            assert(n / 16 >= 256 && n / 256 >= 16 && n / 4096 < 16) by (nonlinear_arith)
                requires
                    4096 <= n < 65536,
            ;
            assert((n as nat) / 16 == (n / 16) as nat && (n as nat) % 16 == (n % 16) as nat);
            assert(((n / 16) as nat) / 16 == (n / 256) as nat && ((n / 16) as nat) % 16 == ((n
                / 16) % 16) as nat);
            assert(((n / 256) as nat) / 16 == (n / 4096) as nat && ((n / 256) as nat) % 16 == ((n
                / 256) % 16) as nat);
            assert(hex_str(n as nat) == hex_str((n / 16) as nat).push(
                hex_char((n % 16) as nat),
            ));
            assert(hex_str((n / 16) as nat) == hex_str((n / 256) as nat).push(
                hex_char(((n / 16) % 16) as nat),
            ));
            assert(hex_str((n / 256) as nat) == hex_str((n / 4096) as nat).push(
                hex_char(((n / 256) % 16) as nat),
            ));
            assert(hex_str((n / 4096) as nat) =~= seq![hex_char((n / 4096) as nat)]);
            assert(r@ =~= hex_str(n as nat));
        }
    }
    r
}

} // verus!
