//! Address normalization: classifying and parsing IPv4 / IPv6 literals into
//! a tagged address value.

use vstd::prelude::*;
use crate::text::{has_char, split_on, lemma_split_on_len, lemma_split_on_none,
    lemma_split_on_first, has_double, first_double, lemma_first_double, find_char_in,
    find_double};

verus! {

/// A normalized network address: four IPv4 octets or eight 16-bit IPv6 groups.
#[derive(Clone, Copy, Debug, PartialEq)]
pub enum NetworkAddress {
    V4([u8; 4]),
    V6([u16; 8]),
}

/// The one failure of address normalization: the literal fits neither the
/// IPv4 nor the IPv6 grammar that its shape selected.
#[derive(Clone, Copy, Debug, PartialEq)]
pub struct MalformedAddress;

pub open spec fn is_digit(c: char) -> bool {
    '0' <= c && c <= '9'
}

pub open spec fn digit_val(c: char) -> nat {
    (c as int - '0' as int) as nat
}

pub open spec fn all_digits(s: Seq<char>) -> bool {
    forall|i: int| 0 <= i < s.len() ==> is_digit(#[trigger] s[i])
}

/// Value of a decimal digit string.
pub open spec fn dec_value(s: Seq<char>) -> nat
    decreases s.len(),
{
    if s.len() == 0 {
        0
    } else {
        dec_value(s.drop_last()) * 10 + digit_val(s.last())
    }
}

/// One textual IPv4 octet: one to three digits, no leading zero, at most 255.
pub open spec fn is_octet_text(s: Seq<char>) -> bool {
    1 <= s.len() <= 3 && all_digits(s) && dec_value(s) <= 255 && (s.len() > 1 ==> s[0] != '0')
}

/// The octets of an IPv4 literal: four dot-separated octet texts.
pub open spec fn ipv4_of(s: Seq<char>) -> Option<Seq<u8>> {
    let p = split_on(s, '.');
    if p.len() == 4 && (forall|i: int| 0 <= i < 4 ==> is_octet_text(#[trigger] p[i])) {
        Some(Seq::new(4, |i: int| dec_value(p[i]) as u8))
    } else {
        None
    }
}

pub open spec fn is_hex_digit(c: char) -> bool {
    is_digit(c) || ('a' <= c && c <= 'f') || ('A' <= c && c <= 'F')
}

pub open spec fn hex_digit_val(c: char) -> nat {
    if is_digit(c) {
        digit_val(c)
    } else if 'a' <= c && c <= 'f' {
        (c as int - 'a' as int + 10) as nat
    } else {
        (c as int - 'A' as int + 10) as nat
    }
}

pub open spec fn all_hex_digits(s: Seq<char>) -> bool {
    forall|i: int| 0 <= i < s.len() ==> is_hex_digit(#[trigger] s[i])
}

/// Value of a hexadecimal digit string.
pub open spec fn hex_value(s: Seq<char>) -> nat
    decreases s.len(),
{
    if s.len() == 0 {
        0
    } else {
        hex_value(s.drop_last()) * 16 + hex_digit_val(s.last())
    }
}

/// One textual IPv6 group: one to four hexadecimal digits.
pub open spec fn is_group_text(s: Seq<char>) -> bool {
    1 <= s.len() <= 4 && all_hex_digits(s)
}

/// The colon-separated pieces of one side of a compressed IPv6 literal; an
/// empty side stands for no groups at all.
pub open spec fn side_parts(side: Seq<char>) -> Seq<Seq<char>> {
    if side.len() == 0 {
        Seq::empty()
    } else {
        split_on(side, ':')
    }
}

pub open spec fn groups_ok(parts: Seq<Seq<char>>) -> bool {
    forall|i: int| 0 <= i < parts.len() ==> is_group_text(#[trigger] parts[i])
}

pub open spec fn group_vals(parts: Seq<Seq<char>>) -> Seq<u16> {
    Seq::new(parts.len(), |i: int| hex_value(parts[i]) as u16)
}

/// The eight groups of an IPv6 literal.  Without `::` the literal must carry
/// exactly eight groups; with one `::` the sides together carry at most seven
/// and the gap is filled with zero groups.
pub open spec fn ipv6_of(s: Seq<char>) -> Option<Seq<u16>> {
    if has_double(s, ':') {
        let i = first_double(s, ':');
        let lp = side_parts(s.subrange(0, i));
        let rp = side_parts(s.subrange(i + 2, s.len() as int));
        if groups_ok(lp) && groups_ok(rp) && lp.len() + rp.len() <= 7 {
            Some(
                group_vals(lp) + Seq::new((8 - lp.len() - rp.len()) as nat, |k: int| 0u16)
                    + group_vals(rp),
            )
        } else {
            None
        }
    } else {
        let p = split_on(s, ':');
        if p.len() == 8 && groups_ok(p) {
            Some(group_vals(p))
        } else {
            None
        }
    }
}

/// Digit strings of bounded length have bounded value.
proof fn lemma_dec_value_bound(s: Seq<char>)
    requires
        all_digits(s),
    ensures
        s.len() <= 1 ==> dec_value(s) <= 9,
        s.len() <= 2 ==> dec_value(s) <= 99,
        s.len() <= 3 ==> dec_value(s) <= 999,
    decreases s.len(),
{
    if s.len() > 0 {
        let t = s.drop_last();
        assert(all_digits(t));
        lemma_dec_value_bound(t);
        assert(digit_val(s.last()) <= 9);
    }
}

/// Hexadecimal digit strings of bounded length have bounded value.
proof fn lemma_hex_value_bound(s: Seq<char>)
    requires
        all_hex_digits(s),
    ensures
        s.len() <= 1 ==> hex_value(s) <= 0xf,
        s.len() <= 2 ==> hex_value(s) <= 0xff,
        s.len() <= 3 ==> hex_value(s) <= 0xfff,
        s.len() <= 4 ==> hex_value(s) <= 0xffff,
    decreases s.len(),
{
    if s.len() > 0 {
        let t = s.drop_last();
        assert(all_hex_digits(t));
        lemma_hex_value_bound(t);
        assert(hex_digit_val(s.last()) <= 15);
    }
}

/// Parses the decimal octet standing at `s[from..to)`.
fn parse_octet(s: &str, from: usize, to: usize) -> (r: Option<u8>)
    requires
        from <= to <= s@.len(),
    ensures
        match r {
            Some(v) => is_octet_text(s@.subrange(from as int, to as int)) && v as nat
                == dec_value(s@.subrange(from as int, to as int)),
            None => !is_octet_text(s@.subrange(from as int, to as int)),
        },
{
    let ghost seg = s@.subrange(from as int, to as int);
    let len = to - from;
    if len < 1 || len > 3 {
        return None;
    }
    if len > 1 && s.get_char(from) == '0' {
        assert(seg[0] == '0');
        return None;
    }
    let mut v: u32 = 0;
    let mut i = from;
    while i < to
        invariant
            from <= i <= to <= s@.len(),
            to - from <= 3,
            seg == s@.subrange(from as int, to as int),
            all_digits(s@.subrange(from as int, i as int)),
            v as nat == dec_value(s@.subrange(from as int, i as int)),
            v <= 999,
        decreases to - i,
    {
        let c = s.get_char(i);
        let cv = c as u32;
        if cv < 48 || cv > 57 {
            assert(!is_digit(seg[i - from]));
            assert(!all_digits(seg));
            return None;
        }
        proof {
            let pre = s@.subrange(from as int, i as int);
            let post = s@.subrange(from as int, i + 1);
            assert(post.drop_last() =~= pre);
            assert(post.last() == s@[i as int]);
            assert(is_digit(s@[i as int]));
            assert(all_digits(post));
            lemma_dec_value_bound(pre);
            assert(pre.len() <= 2);
            assert(dec_value(pre) <= 99);
        }
        v = v * 10 + (cv - 48);
        i += 1;
    }
    assert(s@.subrange(from as int, i as int) =~= seg);
    if v > 255 {
        return None;
    }
    assert(is_octet_text(seg));
    Some(v as u8)
}

/// Parses an IPv4 literal: four dot-separated decimal octets.
pub fn parse_ipv4(s: &str) -> (r: Option<[u8; 4]>)
    ensures
        match r {
            Some(o) => ipv4_of(s@) == Some(o@),
            None => ipv4_of(s@) is None,
        },
{
    let n = s.unicode_len();
    let d1 = match find_char_in(s, 0, n, '.') {
        Some(d) => d,
        None => {
            proof {
                assert(!has_char(s@, '.'));
                lemma_split_on_none(s@, '.');
            }
            return None;
        },
    };
    proof {
        lemma_split_on_first(s@, '.', d1 as int);
    }
    let ghost r1 = s@.subrange(d1 + 1, n as int);
    let d2 = match find_char_in(s, d1 + 1, n, '.') {
        Some(d) => d,
        None => {
            proof {
                assert forall|j: int| 0 <= j < r1.len() implies r1[j] != '.' by {
                    assert(r1[j] == s@[d1 + 1 + j]);
                }
                assert(!has_char(r1, '.'));
                lemma_split_on_none(r1, '.');
                assert(split_on(s@, '.').len() == 2);
            }
            return None;
        },
    };
    proof {
        assert(r1[d2 - d1 - 1] == '.');
        assert forall|j: int| 0 <= j < d2 - d1 - 1 implies r1[j] != '.' by {
            assert(r1[j] == s@[d1 + 1 + j]);
        }
        lemma_split_on_first(r1, '.', d2 - d1 - 1);
        assert(r1.subrange(0, d2 - d1 - 1) =~= s@.subrange(d1 + 1, d2 as int));
        assert(r1.subrange(d2 - d1 - 1 + 1, r1.len() as int) =~= s@.subrange(
            d2 + 1,
            n as int,
        ));
    }
    let ghost r2 = s@.subrange(d2 + 1, n as int);
    let d3 = match find_char_in(s, d2 + 1, n, '.') {
        Some(d) => d,
        None => {
            proof {
                assert forall|j: int| 0 <= j < r2.len() implies r2[j] != '.' by {
                    assert(r2[j] == s@[d2 + 1 + j]);
                }
                assert(!has_char(r2, '.'));
                lemma_split_on_none(r2, '.');
                assert(split_on(s@, '.').len() == 3);
            }
            return None;
        },
    };
    proof {
        assert(r2[d3 - d2 - 1] == '.');
        assert forall|j: int| 0 <= j < d3 - d2 - 1 implies r2[j] != '.' by {
            assert(r2[j] == s@[d2 + 1 + j]);
        }
        lemma_split_on_first(r2, '.', d3 - d2 - 1);
        assert(r2.subrange(0, d3 - d2 - 1) =~= s@.subrange(d2 + 1, d3 as int));
        assert(r2.subrange(d3 - d2 - 1 + 1, r2.len() as int) =~= s@.subrange(
            d3 + 1,
            n as int,
        ));
    }
    let ghost r3 = s@.subrange(d3 + 1, n as int);
    match find_char_in(s, d3 + 1, n, '.') {
        Some(d4) => {
            proof {
                assert(r3[d4 - d3 - 1] == '.');
                assert forall|j: int| 0 <= j < d4 - d3 - 1 implies r3[j] != '.' by {
                    assert(r3[j] == s@[d3 + 1 + j]);
                }
                lemma_split_on_first(r3, '.', d4 - d3 - 1);
                lemma_split_on_len(r3.subrange(d4 - d3 - 1 + 1, r3.len() as int), '.');
                assert(split_on(s@, '.').len() >= 5);
            }
            return None;
        },
        None => {
            proof {
                assert forall|j: int| 0 <= j < r3.len() implies r3[j] != '.' by {
                    assert(r3[j] == s@[d3 + 1 + j]);
                }
                assert(!has_char(r3, '.'));
                lemma_split_on_none(r3, '.');
            }
        },
    }
    let ghost p = split_on(s@, '.');
    proof {
        assert(p =~= seq![
            s@.subrange(0, d1 as int),
            s@.subrange(d1 + 1, d2 as int),
            s@.subrange(d2 + 1, d3 as int),
            s@.subrange(d3 + 1, n as int),
        ]);
    }
    let a = match parse_octet(s, 0, d1) {
        Some(v) => v,
        None => {
            assert(!is_octet_text(p[0]));
            return None;
        },
    };
    let b = match parse_octet(s, d1 + 1, d2) {
        Some(v) => v,
        None => {
            assert(!is_octet_text(p[1]));
            return None;
        },
    };
    let c = match parse_octet(s, d2 + 1, d3) {
        Some(v) => v,
        None => {
            assert(!is_octet_text(p[2]));
            return None;
        },
    };
    let d = match parse_octet(s, d3 + 1, n) {
        Some(v) => v,
        None => {
            assert(!is_octet_text(p[3]));
            return None;
        },
    };
    let out: [u8; 4] = [a, b, c, d];
    proof {
        assert forall|i: int| 0 <= i < 4 implies is_octet_text(#[trigger] p[i]) by {
            assert(is_octet_text(p[0]) && is_octet_text(p[1]) && is_octet_text(p[2])
                && is_octet_text(p[3]));
        }
        assert(out@ =~= Seq::new(4, |i: int| dec_value(p[i]) as u8));
    }
    Some(out)
}

/// Parses the hexadecimal group standing at `s[from..to)`.
fn parse_hex_group(s: &str, from: usize, to: usize) -> (r: Option<u16>)
    requires
        from <= to <= s@.len(),
    ensures
        match r {
            Some(v) => is_group_text(s@.subrange(from as int, to as int)) && v as nat
                == hex_value(s@.subrange(from as int, to as int)),
            None => !is_group_text(s@.subrange(from as int, to as int)),
        },
{
    let ghost seg = s@.subrange(from as int, to as int);
    let len = to - from;
    if len < 1 || len > 4 {
        return None;
    }
    let mut v: u32 = 0;
    let mut i = from;
    while i < to
        invariant
            from <= i <= to <= s@.len(),
            to - from <= 4,
            seg == s@.subrange(from as int, to as int),
            all_hex_digits(s@.subrange(from as int, i as int)),
            v as nat == hex_value(s@.subrange(from as int, i as int)),
            v <= 0xffff,
        decreases to - i,
    {
        let c = s.get_char(i);
        let cv = c as u32;
        let d: u32;
        if 48 <= cv && cv <= 57 {
            d = cv - 48;
        } else if 97 <= cv && cv <= 102 {
            d = cv - 97 + 10;
        } else if 65 <= cv && cv <= 70 {
            d = cv - 65 + 10;
        } else {
            assert(!is_hex_digit(seg[i - from]));
            assert(!all_hex_digits(seg));
            return None;
        }
        proof {
            let pre = s@.subrange(from as int, i as int);
            let post = s@.subrange(from as int, i + 1);
            assert(post.drop_last() =~= pre);
            assert(post.last() == s@[i as int]);
            assert(is_hex_digit(s@[i as int]));
            assert(d as nat == hex_digit_val(s@[i as int]));
            assert(all_hex_digits(post));
            lemma_hex_value_bound(pre);
            assert(pre.len() <= 3);
            assert(hex_value(pre) <= 0xfff);
        }
        v = v * 16 + d;
        i += 1;
    }
    assert(s@.subrange(from as int, i as int) =~= seg);
    assert(is_group_text(seg));
    Some(v as u16)
}

/// Parses the colon-separated hexadecimal groups standing at `s[from..to)`,
/// one side of an IPv6 literal.
fn parse_groups(s: &str, from: usize, to: usize) -> (r: Option<Vec<u16>>)
    requires
        from <= to <= s@.len(),
    ensures
        match r {
            Some(v) => groups_ok(side_parts(s@.subrange(from as int, to as int))) && v@
                == group_vals(side_parts(s@.subrange(from as int, to as int))),
            None => !groups_ok(side_parts(s@.subrange(from as int, to as int))),
        },
{
    let ghost side = s@.subrange(from as int, to as int);
    if from == to {
        assert(side.len() == 0);
        let v: Vec<u16> = Vec::new();
        assert(v@ =~= group_vals(side_parts(side)));
        return Some(v);
    }
    let ghost parts = split_on(side, ':');
    proof {
        assert(side_parts(side) == parts);
        lemma_split_on_len(side, ':');
        assert(side =~= s@.subrange(from as int, to as int).subrange(0, side.len() as int));
        assert(split_on(s@.subrange(from as int, to as int), ':') == parts);
        assert(parts.skip(0) =~= parts);
    }
    let mut out: Vec<u16> = Vec::new();
    let mut cur = from;
    loop
        invariant
            from < to <= s@.len(),
            from <= cur <= to,
            side == s@.subrange(from as int, to as int),
            parts == split_on(side, ':'),
            side_parts(side) == parts,
            out@.len() <= parts.len(),
            split_on(s@.subrange(cur as int, to as int), ':') == parts.skip(out@.len() as int),
            forall|i: int| 0 <= i < out@.len() ==> is_group_text(#[trigger] parts[i])
                && out@[i] == hex_value(parts[i]) as u16,
        decreases to - cur,
    {
        let ghost m = out@.len() as int;
        let ghost rem = s@.subrange(cur as int, to as int);
        proof {
            lemma_split_on_len(rem, ':');
            assert(parts.skip(m).len() >= 1);
            assert(m < parts.len());
        }
        match find_char_in(s, cur, to, ':') {
            Some(k) => {
                proof {
                    assert(rem[k - cur] == ':');
                    assert forall|j: int| 0 <= j < k - cur implies rem[j] != ':' by {
                        assert(rem[j] == s@[cur + j]);
                    }
                    lemma_split_on_first(rem, ':', k - cur);
                    assert(rem.subrange(0, k - cur) =~= s@.subrange(cur as int, k as int));
                    assert(rem.subrange(k - cur + 1, rem.len() as int) =~= s@.subrange(
                        k + 1,
                        to as int,
                    ));
                    assert(parts.skip(m)[0] == parts[m]);
                    assert(parts[m] == s@.subrange(cur as int, k as int));
                }
                match parse_hex_group(s, cur, k) {
                    Some(g) => {
                        proof {
                            assert(parts.skip(m).drop_first() =~= parts.skip(m + 1));
                            assert(parts.skip(m).drop_first() =~= split_on(
                                s@.subrange(k + 1, to as int),
                                ':',
                            ));
                        }
                        out.push(g);
                        cur = k + 1;
                    },
                    None => {
                        assert(!is_group_text(parts[m]));
                        return None;
                    },
                }
            },
            None => {
                proof {
                    assert forall|j: int| 0 <= j < rem.len() implies rem[j] != ':' by {
                        assert(rem[j] == s@[cur + j]);
                    }
                    assert(!has_char(rem, ':'));
                    lemma_split_on_none(rem, ':');
                    assert(parts.skip(m) =~= seq![rem]);
                    assert(parts.len() == m + 1);
                    assert(parts.skip(m)[0] == parts[m]);
                    assert(parts[m] == rem);
                }
                match parse_hex_group(s, cur, to) {
                    Some(g) => {
                        out.push(g);
                        proof {
                            assert(is_group_text(parts[m]));
                            assert(groups_ok(parts));
                            assert(out@ =~= group_vals(parts));
                        }
                        return Some(out);
                    },
                    None => {
                        assert(!is_group_text(parts[m]));
                        return None;
                    },
                }
            },
        }
    }
}

/// The group of the assembled address at position `k`: left groups first,
/// zero fill in the middle, right groups at the end.
spec fn pick_group(l: Seq<u16>, r: Seq<u16>, k: int) -> u16 {
    if k < l.len() {
        l[k]
    } else if k >= 8 - r.len() {
        r[k - (8 - r.len())]
    } else {
        0u16
    }
}

/// Selects the group of the assembled address at position `k`.
fn group_at(lg: &Vec<u16>, rg: &Vec<u16>, k: usize) -> (g: u16)
    requires
        lg@.len() + rg@.len() <= 7,
        k < 8,
    ensures
        g == pick_group(lg@, rg@, k as int),
{
    if k < lg.len() {
        lg[k]
    } else if k >= 8 - rg.len() {
        rg[k - (8 - rg.len())]
    } else {
        0u16
    }
}

/// Parses an IPv6 literal: eight colon-separated hexadecimal groups, or two
/// group runs joined by one `::` standing for the omitted zero groups.
pub fn parse_ipv6(s: &str) -> (r: Option<[u16; 8]>)
    ensures
        match r {
            Some(g) => ipv6_of(s@) == Some(g@),
            None => ipv6_of(s@) is None,
        },
{
    let n = s.unicode_len();
    match find_double(s, ':') {
        None => {
            if n == 0 {
                proof {
                    lemma_split_on_len(s@, ':');
                    assert(split_on(s@, ':') =~= seq![s@]);
                }
                return None;
            }
            assert(s@.subrange(0, n as int) =~= s@);
            match parse_groups(s, 0, n) {
                Some(v) => {
                    if v.len() == 8 {
                        let out: [u16; 8] = [
                            v[0],
                            v[1],
                            v[2],
                            v[3],
                            v[4],
                            v[5],
                            v[6],
                            v[7],
                        ];
                        assert(out@ =~= group_vals(split_on(s@, ':')));
                        Some(out)
                    } else {
                        None
                    }
                },
                None => None,
            }
        },
        Some(i) => {
            proof {
                lemma_first_double(s@, ':');
                assert(i + 1 < n);
            }
            let ghost lside = s@.subrange(0, i as int);
            let ghost rside = s@.subrange(i + 2, s@.len() as int);
            let lg = match parse_groups(s, 0, i) {
                Some(v) => v,
                None => {
                    return None;
                },
            };
            let rg = match parse_groups(s, i + 2, n) {
                Some(v) => v,
                None => {
                    return None;
                },
            };
            if lg.len() <= 7 && rg.len() <= 7 - lg.len() {
                let out: [u16; 8] = [
                    group_at(&lg, &rg, 0),
                    group_at(&lg, &rg, 1),
                    group_at(&lg, &rg, 2),
                    group_at(&lg, &rg, 3),
                    group_at(&lg, &rg, 4),
                    group_at(&lg, &rg, 5),
                    group_at(&lg, &rg, 6),
                    group_at(&lg, &rg, 7),
                ];
                proof {
                    let lp = side_parts(lside);
                    let rp = side_parts(rside);
                    let whole = group_vals(lp) + Seq::new(
                        (8 - lp.len() - rp.len()) as nat,
                        |k: int| 0u16,
                    ) + group_vals(rp);
                    assert(lg@.len() == lp.len() && rg@.len() == rp.len());
                    assert forall|k: int| 0 <= k < 8 implies out@[k] == whole[k] by {
                        assert(out@[k] == pick_group(lg@, rg@, k));
                    }
                    assert(out@ =~= whole);
                }
                Some(out)
            } else {
                None
            }
        },
    }
}

/// Classifies a textual address literal and parses it: a literal holding a
/// colon must be IPv6, any other must be IPv4.
pub fn normalize_address(literal: &str) -> (r: Result<NetworkAddress, MalformedAddress>)
    ensures
        match r {
            Ok(NetworkAddress::V4(o)) => !has_char(literal@, ':') && ipv4_of(literal@)
                == Some(o@),
            Ok(NetworkAddress::V6(g)) => has_char(literal@, ':') && ipv6_of(literal@)
                == Some(g@),
            Err(_) => if has_char(literal@, ':') {
                ipv6_of(literal@) is None
            } else {
                ipv4_of(literal@) is None
            },
        },
{
    let n = literal.unicode_len();
    let has_colon = match find_char_in(literal, 0, n, ':') {
        Some(_) => true,
        None => false,
    };
    if has_colon {
        match parse_ipv6(literal) {
            Some(g) => Ok(NetworkAddress::V6(g)),
            None => Err(MalformedAddress),
        }
    } else {
        assert(!has_char(literal@, ':'));
        match parse_ipv4(literal) {
            Some(o) => Ok(NetworkAddress::V4(o)),
            None => Err(MalformedAddress),
        }
    }
}

} // verus!
