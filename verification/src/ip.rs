//! Textual IPv4 and IPv6 address parsing, used to upgrade free-form domain
//! literals to parsed IP addresses.
//!
//! IPv4 is the four-octet dotted decimal form without leading zeros. IPv6 is
//! colon-separated groups of up to four hexadecimal digits, with at most one
//! `::` compression standing for at least one zero group.

use vstd::prelude::*;

use crate::bytescan::{lemma_scan_bounds, lemma_scan_elems, lemma_scan_is, scan};
use crate::types::{IpAddr, Ipv4Addr, Ipv6Addr, SpecIpAddr};
use crate::util::{
    hex_val, is_digit, is_digit_byte, is_hex, is_hex_byte, spec_ci_match, spec_hex_val, tag_ci,
};

verus! {

/// The bytes of the `IPv6:` literal tag.
pub open spec fn ipv6_tag() -> Seq<u8> {
    seq![73u8, 80u8, 118u8, 54u8, 58u8]
}

/// The literal text of a domain literal as an IP address: dotted-decimal
/// IPv4, textual IPv6, or IPv6 behind a case-insensitive `IPv6:` tag.
pub open spec fn spec_ip_literal(b: Seq<u8>) -> Option<SpecIpAddr> {
    match spec_ipv4(b) {
        Some((o1, o2, o3, o4)) => Some(SpecIpAddr::V4(o1, o2, o3, o4)),
        None => match spec_ipv6(b) {
            Some(g) => Some(SpecIpAddr::V6(g)),
            None => if spec_ci_match(b, 0, ipv6_tag()) {
                match spec_ipv6(b.subrange(5, b.len() as int)) {
                    Some(g) => Some(SpecIpAddr::V6(g)),
                    None => None,
                }
            } else {
                None
            },
        },
    }
}

/// Parse the whole of `s` as the text of an IP address literal.
pub fn ip_literal(s: &[u8]) -> (r: Option<IpAddr>)
    ensures
        match r {
            Some(ip) => spec_ip_literal(s@) == Some(ip@),
            None => spec_ip_literal(s@) is None,
        },
{
    if let Some(v4) = parse_ipv4(s) {
        return Some(IpAddr::V4(v4));
    }
    if let Some(v6) = parse_ipv6(s) {
        return Some(IpAddr::V6(v6));
    }
    let tagbytes: [u8; 5] = [73u8, 80u8, 118u8, 54u8, 58u8];
    proof {
        assert(tagbytes@ =~= ipv6_tag());
    }
    match tag_ci(s, 0, tagbytes.as_slice()) {
        Some(np) => {
            match parse_ipv6(vstd::slice::slice_subrange(s, np, s.len())) {
                Some(v6) => Some(IpAddr::V6(v6)),
                None => None,
            }
        },
        None => None,
    }
}

/// The decimal digit class, as a scan predicate.
pub open spec fn digit_cls() -> spec_fn(u8) -> bool {
    |b: u8| is_digit_byte(b)
}

/// The hexadecimal digit class, as a scan predicate.
pub open spec fn hex_cls() -> spec_fn(u8) -> bool {
    |b: u8| is_hex_byte(b)
}

/// Decimal value of the digit bytes `s[i..j]`.
pub open spec fn spec_dec_value(s: Seq<u8>, i: int, j: int) -> int
    decreases j - i when i <= j
{
    if i >= j {
        0
    } else {
        spec_dec_value(s, i, j - 1) * 10 + (s[j - 1] - 48)
    }
}

/// Hexadecimal value of the digit bytes `s[i..j]`.
pub open spec fn spec_hex_value(s: Seq<u8>, i: int, j: int) -> int
    decreases j - i when i <= j
{
    if i >= j {
        0
    } else {
        spec_hex_value(s, i, j - 1) * 16 + spec_hex_val(s[j - 1])
    }
}

/// One decimal octet at `i`: one to three digits, no leading zero, value at
/// most 255. Yields the position after the digits and the octet value.
pub open spec fn spec_dec_octet(s: Seq<u8>, i: int) -> Option<(int, u8)> {
    let j = scan(s, i, digit_cls());
    let n = j - i;
    if 1 <= n <= 3 && (n == 1 || s[i] != 48) && spec_dec_value(s, i, j) <= 255 {
        Some((j, spec_dec_value(s, i, j) as u8))
    } else {
        None
    }
}

/// The whole of `s` as a dotted-decimal IPv4 address.
pub open spec fn spec_ipv4(s: Seq<u8>) -> Option<(u8, u8, u8, u8)> {
    match spec_dec_octet(s, 0) {
        Some((p1, a)) => if p1 < s.len() && s[p1] == 46 {
            match spec_dec_octet(s, p1 + 1) {
                Some((p2, b)) => if p2 < s.len() && s[p2] == 46 {
                    match spec_dec_octet(s, p2 + 1) {
                        Some((p3, c)) => if p3 < s.len() && s[p3] == 46 {
                            match spec_dec_octet(s, p3 + 1) {
                                Some((p4, d)) => if p4 == s.len() {
                                    Some((a, b, c, d))
                                } else {
                                    None
                                },
                                None => None,
                            }
                        } else {
                            None
                        },
                        None => None,
                    }
                } else {
                    None
                },
                None => None,
            }
        } else {
            None
        },
        None => None,
    }
}

/// One hexadecimal group at `i`: one to four hex digits. Yields the position
/// after the digits and the group value.
pub open spec fn spec_hex_group(s: Seq<u8>, i: int) -> Option<(int, u16)> {
    let j = scan(s, i, hex_cls());
    let n = j - i;
    if 1 <= n <= 4 {
        Some((j, spec_hex_value(s, i, j) as u16))
    } else {
        None
    }
}

/// Colon-separated hexadecimal groups filling `s[i..end]` exactly, at most
/// `max` of them. An empty range yields the empty group list.
pub open spec fn spec_groups(s: Seq<u8>, i: int, end: int, max: int) -> Option<Seq<u16>>
    decreases end - i when 0 <= i <= end <= s.len()
{
    if i == end {
        Some(Seq::empty())
    } else if max <= 0 {
        None
    } else {
        match spec_hex_group(s, i) {
            Some((j, g)) => if j > end {
                None
            } else if j == end {
                Some(seq![g])
            } else if s[j] == 58 && j + 1 < end {
                match spec_groups(s, j + 1, end, max - 1) {
                    Some(rest) => Some(seq![g] + rest),
                    None => None,
                }
            } else {
                None
            },
            None => None,
        }
    }
}

/// Position of the first `::` in `s` at or after `i`.
pub open spec fn spec_find_dc(s: Seq<u8>, i: int) -> Option<int>
    decreases s.len() - i when 0 <= i
{
    if i + 1 >= s.len() {
        None
    } else if s[i] == 58 && s[i + 1] == 58 {
        Some(i)
    } else {
        spec_find_dc(s, i + 1)
    }
}

/// The whole of `s` as a textual IPv6 address: eight groups, or a single
/// `::` compression with at most seven groups around it.
pub open spec fn spec_ipv6(s: Seq<u8>) -> Option<Seq<u16>> {
    match spec_find_dc(s, 0) {
        None => match spec_groups(s, 0, s.len() as int, 8) {
            Some(g) => if g.len() == 8 {
                Some(g)
            } else {
                None
            },
            None => None,
        },
        Some(k) => match (spec_groups(s, 0, k, 8), spec_groups(s, k + 2, s.len() as int, 8)) {
            (Some(l), Some(r)) => if l.len() + r.len() <= 7 {
                Some(l + Seq::new((8 - l.len() - r.len()) as nat, |_x: int| 0u16) + r)
            } else {
                None
            },
            _ => None,
        },
    }
}

/// Parse one decimal octet at `pos`.
fn dec_octet(s: &[u8], pos: usize) -> (r: Option<(usize, u8)>)
    requires
        pos <= s.len(),
    ensures
        match r {
            Some((np, v)) => spec_dec_octet(s@, pos as int) == Some((np as int, v)) && np
                <= s.len(),
            None => spec_dec_octet(s@, pos as int) is None,
        },
{
    let mut j: usize = pos;
    while j < s.len() && is_digit(s[j])
        invariant
            pos <= j <= s.len(),
            forall|k: int| pos <= k < j ==> digit_cls()(s@[k]),
        decreases s.len() - j,
    {
        j = j + 1;
    }
    proof {
        lemma_scan_is(s@, pos as int, j as int, digit_cls());
    }
    let n = j - pos;
    if n < 1 || n > 3 {
        return None;
    }
    if n > 1 && s[pos] == 48 {
        return None;
    }
    let mut v: u16 = 0;
    let mut k: usize = pos;
    while k < j
        invariant
            pos <= k <= j <= s.len(),
            n == j - pos <= 3,
            forall|q: int| pos <= q < j ==> digit_cls()(s@[q]),
            v == spec_dec_value(s@, pos as int, k as int),
            v <= 999,
        decreases j - k,
    {
        proof {
            assert(digit_cls()(s@[k as int]));
            assert(spec_dec_value(s@, pos as int, k + 1) == spec_dec_value(
                s@,
                pos as int,
                k as int,
            ) * 10 + (s@[k as int] - 48));
        }
        assert(v <= 99) by {
            lemma_dec_value_bounds_inner(s@, pos as int, k as int);
        }
        v = v * 10 + (s[k] - 48) as u16;
        k = k + 1;
    }
    if v <= 255 {
        Some((j, v as u8))
    } else {
        None
    }
}

/// Bounded decimal value, by digit count.
proof fn lemma_dec_value_bounds_inner(s: Seq<u8>, i: int, j: int)
    requires
        0 <= i <= j <= s.len(),
        forall|k: int| i <= k < j ==> digit_cls()(s[k]),
    ensures
        j - i == 0 ==> spec_dec_value(s, i, j) == 0,
        j - i >= 1 ==> 0 <= spec_dec_value(s, i, j),
        j - i == 1 ==> spec_dec_value(s, i, j) <= 9,
        j - i == 2 ==> spec_dec_value(s, i, j) <= 99,
        j - i == 3 ==> spec_dec_value(s, i, j) <= 999,
    decreases j - i,
{
    if i < j {
        lemma_dec_value_bounds_inner(s, i, j - 1);
    }
}

/// Parse the whole of `s` as a dotted-decimal IPv4 address.
pub fn parse_ipv4(s: &[u8]) -> (r: Option<Ipv4Addr>)
    ensures
        match r {
            Some(ip) => spec_ipv4(s@) == Some((ip.0, ip.1, ip.2, ip.3)),
            None => spec_ipv4(s@) is None,
        },
{
    let (p1, a) = match dec_octet(s, 0) {
        Some(x) => x,
        None => {
            return None;
        },
    };
    if !(p1 < s.len() && s[p1] == 46) {
        return None;
    }
    let (p2, b) = match dec_octet(s, p1 + 1) {
        Some(x) => x,
        None => {
            return None;
        },
    };
    if !(p2 < s.len() && s[p2] == 46) {
        return None;
    }
    let (p3, c) = match dec_octet(s, p2 + 1) {
        Some(x) => x,
        None => {
            return None;
        },
    };
    if !(p3 < s.len() && s[p3] == 46) {
        return None;
    }
    let (p4, d) = match dec_octet(s, p3 + 1) {
        Some(x) => x,
        None => {
            return None;
        },
    };
    if p4 == s.len() {
        Some(Ipv4Addr(a, b, c, d))
    } else {
        None
    }
}

/// Parse one hexadecimal group at `pos`.
fn hex_group(s: &[u8], pos: usize) -> (r: Option<(usize, u16)>)
    requires
        pos <= s.len(),
    ensures
        match r {
            Some((np, v)) => spec_hex_group(s@, pos as int) == Some((np as int, v)) && pos < np
                <= s.len(),
            None => spec_hex_group(s@, pos as int) is None,
        },
{
    let mut j: usize = pos;
    while j < s.len() && is_hex(s[j])
        invariant
            pos <= j <= s.len(),
            forall|k: int| pos <= k < j ==> hex_cls()(s@[k]),
        decreases s.len() - j,
    {
        j = j + 1;
    }
    proof {
        lemma_scan_is(s@, pos as int, j as int, hex_cls());
    }
    let n = j - pos;
    if n < 1 || n > 4 {
        return None;
    }
    let mut v: u32 = 0;
    let mut k: usize = pos;
    while k < j
        invariant
            pos <= k <= j <= s.len(),
            j - pos <= 4,
            forall|q: int| pos <= q < j ==> hex_cls()(s@[q]),
            v == spec_hex_value(s@, pos as int, k as int),
            v <= 0xffff,
        decreases j - k,
    {
        proof {
            assert(hex_cls()(s@[k as int]));
            assert(spec_hex_value(s@, pos as int, k + 1) == spec_hex_value(
                s@,
                pos as int,
                k as int,
            ) * 16 + spec_hex_val(s@[k as int]));
        }
        assert(v <= 0xfff) by {
            if v > 0xfff {
                lemma_hex_value_bounds(s@, pos as int, k as int);
            }
        }
        v = v * 16 + hex_val(s[k]) as u32;
        k = k + 1;
    }
    Some((j, v as u16))
}

/// Bounded hexadecimal value, by digit count.
proof fn lemma_hex_value_bounds(s: Seq<u8>, i: int, j: int)
    requires
        0 <= i <= j <= s.len(),
        forall|k: int| i <= k < j ==> hex_cls()(s[k]),
    ensures
        0 <= spec_hex_value(s, i, j),
        j - i <= 1 ==> spec_hex_value(s, i, j) <= 0xf,
        j - i == 2 ==> spec_hex_value(s, i, j) <= 0xff,
        j - i == 3 ==> spec_hex_value(s, i, j) <= 0xfff,
        j - i == 4 ==> spec_hex_value(s, i, j) <= 0xffff,
    decreases j - i,
{
    if i < j {
        lemma_hex_value_bounds(s, i, j - 1);
    }
}

/// Parse colon-separated hexadecimal groups filling `s[pos..end]` exactly.
fn groups(s: &[u8], pos: usize, end: usize, max: u8) -> (r: Option<Vec<u16>>)
    requires
        pos <= end <= s.len(),
    ensures
        match r {
            Some(v) => spec_groups(s@, pos as int, end as int, max as int) == Some(v@),
            None => spec_groups(s@, pos as int, end as int, max as int) is None,
        },
    decreases end - pos,
{
    if pos == end {
        return Some(Vec::new());
    }
    if max == 0 {
        return None;
    }
    let (j, g) = match hex_group(s, pos) {
        Some(x) => x,
        None => {
            return None;
        },
    };
    if j > end {
        return None;
    }
    if j == end {
        let mut v: Vec<u16> = Vec::new();
        v.push(g);
        proof {
            assert(v@ =~= seq![g]);
        }
        return Some(v);
    }
    if s[j] == 58 && j + 1 < end {
        match groups(s, j + 1, end, max - 1) {
            Some(rest) => {
                let mut v: Vec<u16> = Vec::new();
                v.push(g);
                let mut q: usize = 0;
                while q < rest.len()
                    invariant
                        q <= rest.len(),
                        v@ =~= seq![g] + rest@.subrange(0, q as int),
                    decreases rest.len() - q,
                {
                    v.push(rest[q]);
                    q = q + 1;
                    proof {
                        assert(v@ =~= seq![g] + rest@.subrange(0, q as int));
                    }
                }
                proof {
                    assert(rest@.subrange(0, rest@.len() as int) =~= rest@);
                }
                Some(v)
            },
            None => None,
        }
    } else {
        None
    }
}

/// Find the first `::` in `s`.
fn find_dc(s: &[u8]) -> (r: Option<usize>)
    ensures
        match r {
            Some(k) => spec_find_dc(s@, 0) == Some(k as int) && k + 1 < s.len(),
            None => spec_find_dc(s@, 0) is None,
        },
{
    let mut i: usize = 0;
    while i < s.len() && i + 1 < s.len()
        invariant
            i <= s.len(),
            spec_find_dc(s@, 0) == spec_find_dc(s@, i as int),
        decreases s.len() - i,
    {
        if s[i] == 58 && s[i + 1] == 58 {
            return Some(i);
        }
        i = i + 1;
    }
    None
}

/// Parse the whole of `s` as a textual IPv6 address.
pub fn parse_ipv6(s: &[u8]) -> (r: Option<Ipv6Addr>)
    ensures
        match r {
            Some(ip) => spec_ipv6(s@) == Some(ip.0@),
            None => spec_ipv6(s@) is None,
        },
{
    match find_dc(s) {
        None => {
            match groups(s, 0, s.len(), 8) {
                Some(g) => {
                    if g.len() == 8 {
                        let arr: [u16; 8] = [g[0], g[1], g[2], g[3], g[4], g[5], g[6], g[7]];
                        proof {
                            assert(arr@ =~= g@);
                        }
                        Some(Ipv6Addr(arr))
                    } else {
                        None
                    }
                },
                None => None,
            }
        },
        Some(k) => {
            let l = match groups(s, 0, k, 8) {
                Some(l) => l,
                None => {
                    return None;
                },
            };
            let r2 = match groups(s, k + 2, s.len(), 8) {
                Some(r2) => r2,
                None => {
                    return None;
                },
            };
            if l.len() > 7 || r2.len() > 7 || l.len() + r2.len() > 7 {
                return None;
            }
            let fill = 8 - l.len() - r2.len();
            let mut out: Vec<u16> = Vec::new();
            let mut q: usize = 0;
            while q < l.len()
                invariant
                    q <= l.len(),
                    out@ =~= l@.subrange(0, q as int),
                decreases l.len() - q,
            {
                out.push(l[q]);
                q = q + 1;
                proof {
                    assert(out@ =~= l@.subrange(0, q as int));
                }
            }
            let mut z: usize = 0;
            while z < fill
                invariant
                    z <= fill,
                    fill == 8 - l@.len() - r2@.len(),
                    out@ =~= l@ + Seq::new(z as nat, |_x: int| 0u16),
                decreases fill - z,
            {
                out.push(0);
                z = z + 1;
                proof {
                    assert(out@ =~= l@ + Seq::new(z as nat, |_x: int| 0u16));
                }
            }
            let mut w: usize = 0;
            while w < r2.len()
                invariant
                    w <= r2.len(),
                    fill == 8 - l@.len() - r2@.len(),
                    out@ =~= l@ + Seq::new(fill as nat, |_x: int| 0u16) + r2@.subrange(
                        0,
                        w as int,
                    ),
                decreases r2.len() - w,
            {
                out.push(r2[w]);
                w = w + 1;
                proof {
                    assert(out@ =~= l@ + Seq::new(fill as nat, |_x: int| 0u16) + r2@.subrange(
                        0,
                        w as int,
                    ));
                }
            }
            proof {
                assert(r2@.subrange(0, r2@.len() as int) =~= r2@);
                assert(out@.len() == 8);
            }
            let arr: [u16; 8] = [out[0], out[1], out[2], out[3], out[4], out[5], out[6], out[7]];
            proof {
                assert(arr@ =~= out@);
            }
            Some(Ipv6Addr(arr))
        },
    }
}

} // verus!
