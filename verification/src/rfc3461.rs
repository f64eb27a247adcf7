//! Delivery status notification (DSN) extension parameters.

use vstd::prelude::*;

use crate::bytescan::{lemma_scan_is, scan};
use crate::util::{
    ascii_to_string, bytes_ci_eq, hex_val, is_hex, is_hex_byte, spec_ci_eq_bytes, spec_ci_match,
    spec_hex_val, spec_legacy_chars, to_lower_byte, ParseError, ParseResult,
};
use vstd::string::StringSliceAdditionalSpecFns;
use vstd::utf8::encode_utf8;

verus! {

/// A pair of hexadecimal digits at `i`, read as one byte.
pub open spec fn spec_hexpair(s: Seq<u8>, i: int) -> Option<(int, u8)> {
    if i + 1 < s.len() && is_hex_byte(s[i]) && is_hex_byte(s[i + 1]) {
        Some((i + 2, (spec_hex_val(s[i]) * 16 + spec_hex_val(s[i + 1])) as u8))
    } else {
        None
    }
}

/// Parse a pair of hexadecimal digits at `pos`.
pub fn hexpair(input: &[u8], pos: usize) -> (r: Option<(usize, u8)>)
    requires
        pos <= input.len(),
    ensures
        match r {
            Some((np, v)) => spec_hexpair(input@, pos as int) == Some((np as int, v)) && pos < np
                <= input.len(),
            None => spec_hexpair(input@, pos as int) is None,
        },
{
    if pos < input.len() && pos + 1 < input.len() && is_hex(input[pos]) && is_hex(
        input[pos + 1],
    ) {
        Some((pos + 2, hex_val(input[pos]) * 16 + hex_val(input[pos + 1])))
    } else {
        None
    }
}

/// Plain xtext byte: printable except `+` and `=`.
pub open spec fn xchar_cls() -> spec_fn(u8) -> bool {
    |b: u8| (33 <= b <= 42) || (44 <= b <= 60) || (62 <= b <= 126)
}

/// Decide membership in the plain xtext byte class.
fn is_xchar(b: u8) -> (r: bool)
    ensures
        r == xchar_cls()(b),
{
    (33 <= b && b <= 42) || (44 <= b && b <= 60) || (62 <= b && b <= 126)
}

/// Decoded bytes of an xtext run at `i`: plain bytes kept, `+XX` escapes
/// decoded, ending at the first byte that is neither.
pub open spec fn spec_xtext(s: Seq<u8>, i: int) -> (int, Seq<u8>)
    decreases s.len() - i when 0 <= i <= s.len()
{
    if i < s.len() && xchar_cls()(s[i]) {
        let j = scan(s, i, xchar_cls());
        if i < j <= s.len() {
            let (end, rest) = spec_xtext(s, j);
            (end, s.subrange(i, j) + rest)
        } else {
            (i, Seq::empty())
        }
    } else if i < s.len() && s[i] == 43 {
        match spec_hexpair(s, i + 1) {
            Some((j, v)) => {
                let (end, rest) = spec_xtext(s, j);
                (end, seq![v] + rest)
            },
            None => (i, Seq::empty()),
        }
    } else {
        (i, Seq::empty())
    }
}

/// Parse an xtext run at `pos`, yielding the position after it and the
/// decoded bytes.
pub fn xtext(input: &[u8], pos: usize) -> (r: (usize, Vec<u8>))
    requires
        pos <= input.len(),
    ensures
        spec_xtext(input@, pos as int) == (r.0 as int, r.1@),
        pos <= r.0 <= input.len(),
{
    let mut out: Vec<u8> = Vec::new();
    let mut j: usize = pos;
    loop
        invariant
            pos <= j <= input.len(),
            spec_xtext(input@, pos as int).0 == spec_xtext(input@, j as int).0,
            spec_xtext(input@, pos as int).1 == out@ + spec_xtext(input@, j as int).1,
        ensures
            pos <= j <= input.len(),
            spec_xtext(input@, pos as int).0 == j as int,
            spec_xtext(input@, pos as int).1 == out@,
        decreases input.len() - j,
    {
        if j < input.len() && is_xchar(input[j]) {
            let j2 = scan_xchar(input, j);
            proof {
                crate::bytescan::lemma_scan_nonempty(input@, j as int, xchar_cls());
            }
            let ghost out0 = out@;
            let mut k: usize = j;
            while k < j2
                invariant
                    j <= k <= j2 <= input.len(),
                    out@ == out0 + input@.subrange(j as int, k as int),
                decreases j2 - k,
            {
                out.push(input[k]);
                k = k + 1;
                proof {
                    assert(out@ =~= out0 + input@.subrange(j as int, k as int));
                }
            }
            proof {
                assert(spec_xtext(input@, j as int).1 == input@.subrange(j as int, j2 as int)
                    + spec_xtext(input@, j2 as int).1);
                assert(out0 + input@.subrange(j as int, j2 as int) + spec_xtext(
                    input@,
                    j2 as int,
                ).1 =~= out0 + spec_xtext(input@, j as int).1);
            }
            j = j2;
        } else if j < input.len() && input[j] == 43 {
            match hexpair(input, j + 1) {
                Some((j2, v)) => {
                    proof {
                        assert(!xchar_cls()(input@[j as int]));
                        assert(spec_xtext(input@, j as int).1 == seq![v] + spec_xtext(
                            input@,
                            j2 as int,
                        ).1);
                        assert(out@ + seq![v] + spec_xtext(input@, j2 as int).1 =~= out@
                            + spec_xtext(input@, j as int).1);
                    }
                    out.push(v);
                    j = j2;
                },
                None => {
                    proof {
                        assert(spec_xtext(input@, j as int).0 == j as int);
                        assert(spec_xtext(input@, j as int).1 =~= Seq::<u8>::empty());
                        assert(out@ + Seq::<u8>::empty() =~= out@);
                    }
                    break ;
                },
            }
        } else {
            proof {
                assert(spec_xtext(input@, j as int).0 == j as int);
                assert(spec_xtext(input@, j as int).1 =~= Seq::<u8>::empty());
                assert(out@ + Seq::<u8>::empty() =~= out@);
            }
            break ;
        }
    }
    (j, out)
}

/// Scan a plain xtext byte run starting at `pos`.
fn scan_xchar(input: &[u8], pos: usize) -> (r: usize)
    requires
        pos <= input.len(),
    ensures
        r == scan(input@, pos as int, xchar_cls()),
        pos <= r <= input.len(),
{
    let mut j: usize = pos;
    while j < input.len() && is_xchar(input[j])
        invariant
            pos <= j <= input.len(),
            forall|k: int| pos <= k < j ==> xchar_cls()(input@[k]),
        decreases input.len() - j,
    {
        j = j + 1;
    }
    proof {
        lemma_scan_is(input@, pos as int, j as int, xchar_cls());
    }
    j
}

/// A printable decoded byte: horizontal whitespace, line-control bytes or
/// printable ASCII.
pub open spec fn is_printable_byte(b: u8) -> bool {
    (9 <= b <= 13) || (32 <= b <= 126)
}

/// An xtext run at `i` whose decoded bytes are all printable.
pub open spec fn spec_printable_xtext(s: Seq<u8>, i: int) -> Option<(int, Seq<u8>)> {
    let (e, v) = spec_xtext(s, i);
    if forall|k: int| 0 <= k < v.len() ==> is_printable_byte(#[trigger] v[k]) {
        Some((e, v))
    } else {
        None
    }
}

/// Parse an xtext run whose decoded bytes must all be printable.
pub fn printable_xtext(input: &[u8], pos: usize) -> (r: Option<(usize, Vec<u8>)>)
    requires
        pos <= input.len(),
    ensures
        match r {
            Some((np, v)) => spec_printable_xtext(input@, pos as int) == Some((np as int, v@))
                && pos <= np <= input.len(),
            None => spec_printable_xtext(input@, pos as int) is None,
        },
{
    let (e, v) = xtext(input, pos);
    let mut k: usize = 0;
    while k < v.len()
        invariant
            k <= v.len(),
            spec_xtext(input@, pos as int) == (e as int, v@),
            pos <= e <= input.len(),
            forall|q: int| 0 <= q < k ==> is_printable_byte(#[trigger] v@[q]),
        decreases v.len() - k,
    {
        let b = v[k];
        if !((9 <= b && b <= 13) || (32 <= b && b <= 126)) {
            proof {
                assert(!is_printable_byte(v@[k as int]));
                let specv = spec_xtext(input@, pos as int).1;
                assert(specv == v@);
                assert(!(forall|q: int|
                    0 <= q < specv.len() ==> is_printable_byte(#[trigger] specv[q])));
            }
            return None;
        }
        k = k + 1;
    }
    Some((e, v))
}

/// The ESMTP ORCPT parameter value: an address type (an atom), a semicolon,
/// and a printable xtext-encoded address.
pub open spec fn spec_orcpt_address(s: Seq<u8>) -> Option<(int, (Seq<char>, Seq<char>))> {
    match crate::rfc5322::spec_atom(s, 0, false) {
        Some((j, t)) => if 0 <= j < s.len() && s[j] == 59 {
            match spec_printable_xtext(s, j + 1) {
                Some((e, v)) => Some((e, (t, spec_legacy_chars(v)))),
                None => None,
            }
        } else {
            None
        },
        None => None,
    }
}

/// Parse the ESMTP ORCPT parameter that may be present on a RCPT command,
/// yielding the address type and the decoded original recipient address.
pub fn orcpt_address(input: &[u8]) -> (r: ParseResult<(String, String)>)
    ensures
        match r {
            Ok((rem, v)) => match spec_orcpt_address(input@) {
                Some((np, sv)) => v.0@ == sv.0 && v.1@ == sv.1 && rem@ == input@.subrange(
                    np,
                    input@.len() as int,
                ),
                None => false,
            },
            Err(e) => e == ParseError::GrammarMismatch && spec_orcpt_address(input@) is None,
        },
{
    let (j, t) = match crate::rfc5322::atom(input, 0, false) {
        Some(x) => x,
        None => {
            return Err(ParseError::GrammarMismatch);
        },
    };
    if !(j < input.len() && input[j] == 59) {
        return Err(ParseError::GrammarMismatch);
    }
    match printable_xtext(input, j + 1) {
        Some((e, v)) => {
            let addr = ascii_to_string(v.as_slice());
            Ok((vstd::slice::slice_subrange(input, e, input.len()), (t, addr)))
        },
        None => Err(ParseError::GrammarMismatch),
    }
}

/// The DSN return type desired by the sender.
#[derive(Clone, Copy, Debug, PartialEq, Eq, Structural)]
pub enum DSNRet {
    /// Return the full message content.
    Full,
    /// Return only the message headers.
    Hdrs,
}

/// DSN parameters for the MAIL command.
#[derive(Clone, Debug, PartialEq)]
pub struct DSNMailParams {
    /// A mail transaction identifier provided by the sender, if any.
    pub envid: Option<String>,
    /// The DSN return type desired by the sender, if any.
    pub ret: Option<DSNRet>,
}

/// Specification-level DSN parameter block.
pub struct SpecDSNMailParams {
    /// The transaction identifier.
    pub envid: Option<Seq<char>>,
    /// The return type.
    pub ret: Option<DSNRet>,
}

impl View for DSNMailParams {
    type V = SpecDSNMailParams;

    open spec fn view(&self) -> SpecDSNMailParams {
        SpecDSNMailParams {
            envid: match &self.envid {
                Some(e) => Some(e@),
                None => None,
            },
            ret: self.ret,
        }
    }
}

/// The bytes of the parameter name `ret`.
pub open spec fn kw_ret_b() -> Seq<u8> {
    seq![114u8, 101u8, 116u8]
}

/// The bytes of the parameter name `envid`.
pub open spec fn kw_envid_b() -> Seq<u8> {
    seq![101u8, 110u8, 118u8, 105u8, 100u8]
}

/// The bytes of the RET value `full`.
pub open spec fn kw_full_b() -> Seq<u8> {
    seq![102u8, 117u8, 108u8, 108u8]
}

/// The bytes of the RET value `hdrs`.
pub open spec fn kw_hdrs_b() -> Seq<u8> {
    seq![104u8, 100u8, 114u8, 115u8]
}

/// The views of a parameter list: each name and optional value as text.
pub open spec fn kv_views<'a>(items: Seq<(&'a str, Option<&'a str>)>) -> Seq<
    (Seq<char>, Option<Seq<char>>),
> {
    items.map_values(
        |p: (&'a str, Option<&'a str>)|
            (
                p.0@,
                match p.1 {
                    Some(v) => Some(v@),
                    None => None,
                },
            ),
    )
}

/// Interpretation of a MAIL parameter list for DSN, walking the parameters
/// in order. `RET` and `ENVID` (case-insensitive) are consumed, each allowed
/// at most once and with a validated value; every other parameter is kept,
/// in order. Each error arises exactly on the condition it names.
pub open spec fn spec_dsn_params(
    items: Seq<(Seq<char>, Option<Seq<char>>)>,
    envid: Option<Seq<char>>,
    ret: Option<DSNRet>,
    out: Seq<(Seq<char>, Option<Seq<char>>)>,
) -> Result<(SpecDSNMailParams, Seq<(Seq<char>, Option<Seq<char>>)>), Seq<char>>
    decreases items.len(),
{
    if items.len() == 0 {
        Ok((SpecDSNMailParams { envid, ret }, out))
    } else {
        let (name, value) = items[0];
        let nb = encode_utf8(name);
        if spec_ci_eq_bytes(nb, kw_ret_b()) {
            match value {
                Some(v) => if ret is Some {
                    Err("Duplicate RET"@)
                } else {
                    let vb = encode_utf8(v);
                    if spec_ci_eq_bytes(vb, kw_full_b()) {
                        spec_dsn_params(items.drop_first(), envid, Some(DSNRet::Full), out)
                    } else if spec_ci_eq_bytes(vb, kw_hdrs_b()) {
                        spec_dsn_params(items.drop_first(), envid, Some(DSNRet::Hdrs), out)
                    } else {
                        Err("Invalid RET"@)
                    }
                },
                None => Err("RET without value"@),
            }
        } else if spec_ci_eq_bytes(nb, kw_envid_b()) {
            match value {
                Some(v) => if envid is Some {
                    Err("Duplicate ENVID"@)
                } else {
                    let vb = encode_utf8(v);
                    if vb.len() > 100 {
                        Err("ENVID over 100 bytes"@)
                    } else {
                        match spec_printable_xtext(vb, 0) {
                            Some((e, dec)) => if e == vb.len() {
                                spec_dsn_params(
                                    items.drop_first(),
                                    Some(spec_legacy_chars(dec)),
                                    ret,
                                    out,
                                )
                            } else {
                                Err("Invalid ENVID"@)
                            },
                            None => Err("Invalid ENVID"@),
                        }
                    }
                },
                None => Err("ENVID without value"@),
            }
        } else {
            spec_dsn_params(items.drop_first(), envid, ret, out.push(items[0]))
        }
    }
}

/// Parse a list of ESMTP parameters on a MAIL command into a DSN option
/// block, returning the block and the parameters that were not consumed.
///
/// A duplicate `RET` or `ENVID`, a missing or invalid value, or an
/// over-long `ENVID` is rejected with an error naming the condition.
pub fn dsn_mail_params<'a>(input: &[(&'a str, Option<&'a str>)]) -> (r: Result<
    (DSNMailParams, Vec<(&'a str, Option<&'a str>)>),
    &'static str,
>)
    ensures
        match r {
            Ok((params, rest)) => spec_dsn_params(
                kv_views(input@),
                None,
                None,
                Seq::empty(),
            ) == Ok::<_, Seq<char>>((params@, kv_views(rest@))),
            Err(e) => spec_dsn_params(kv_views(input@), None, None, Seq::empty())
                == Err::<(SpecDSNMailParams, Seq<(Seq<char>, Option<Seq<char>>)>), _>(e@),
        },
{
    let mut out: Vec<(&'a str, Option<&'a str>)> = Vec::new();
    let mut envid_val: Option<String> = None;
    let mut ret_val: Option<DSNRet> = None;
    let mut k: usize = 0;
    let kw_ret: [u8; 3] = [114u8, 101u8, 116u8];
    let kw_envid: [u8; 5] = [101u8, 110u8, 118u8, 105u8, 100u8];
    let kw_full: [u8; 4] = [102u8, 117u8, 108u8, 108u8];
    let kw_hdrs: [u8; 4] = [104u8, 100u8, 114u8, 115u8];
    proof {
        assert(kw_ret@ =~= kw_ret_b());
        assert(kw_envid@ =~= kw_envid_b());
        assert(kw_full@ =~= kw_full_b());
        assert(kw_hdrs@ =~= kw_hdrs_b());
        assert(kv_views(input@.skip(0)) =~= kv_views(input@));
        assert(kv_views(out@) =~= Seq::<(Seq<char>, Option<Seq<char>>)>::empty());
    }
    while k < input.len()
        invariant
            k <= input.len(),
            kw_ret@ == kw_ret_b(),
            kw_envid@ == kw_envid_b(),
            kw_full@ == kw_full_b(),
            kw_hdrs@ == kw_hdrs_b(),
            spec_dsn_params(kv_views(input@), None, None, Seq::empty()) == spec_dsn_params(
                kv_views(input@.skip(k as int)),
                match envid_val {
                    Some(e) => Some(e@),
                    None => None,
                },
                ret_val,
                kv_views(out@),
            ),
        decreases input.len() - k,
    {
        let ghost items = kv_views(input@.skip(k as int));
        let (name, value) = input[k];
        proof {
            assert(items[0] == (name@, match value {
                Some(v) => Some(v@),
                None => None,
            }));
            assert(kv_views(input@.skip(k + 1)) =~= items.drop_first());
        }
        if bytes_ci_eq(name.as_bytes(), kw_ret.as_slice()) {
            match value {
                Some(v) => {
                    if ret_val.is_some() {
                        return Err("Duplicate RET");
                    }
                    if bytes_ci_eq(v.as_bytes(), kw_full.as_slice()) {
                        ret_val = Some(DSNRet::Full);
                    } else if bytes_ci_eq(v.as_bytes(), kw_hdrs.as_slice()) {
                        ret_val = Some(DSNRet::Hdrs);
                    } else {
                        return Err("Invalid RET");
                    }
                },
                None => {
                    return Err("RET without value");
                },
            }
        } else if bytes_ci_eq(name.as_bytes(), kw_envid.as_slice()) {
            match value {
                Some(v) => {
                    if envid_val.is_some() {
                        return Err("Duplicate ENVID");
                    }
                    let vb = v.as_bytes();
                    if vb.len() > 100 {
                        return Err("ENVID over 100 bytes");
                    }
                    match printable_xtext(vb, 0) {
                        Some((e, dec)) => {
                            if e == vb.len() {
                                envid_val = Some(ascii_to_string(dec.as_slice()));
                            } else {
                                return Err("Invalid ENVID");
                            }
                        },
                        None => {
                            return Err("Invalid ENVID");
                        },
                    }
                },
                None => {
                    return Err("ENVID without value");
                },
            }
        } else {
            proof {
                assert(kv_views(out@.push((name, value))) =~= kv_views(out@).push(items[0]));
            }
            out.push((name, value));
        }
        k = k + 1;
    }
    proof {
        assert(kv_views(input@.skip(input@.len() as int))
            =~= Seq::<(Seq<char>, Option<Seq<char>>)>::empty());
    }
    Ok((DSNMailParams { envid: envid_val, ret: ret_val }, out))
}


/// Requested delivery status notification conditions.
#[derive(Clone, Copy, Debug, PartialEq, Eq, Structural)]
pub struct Notify {
    /// Notify on successful delivery.
    pub on_success: bool,
    /// Notify on delivery failure.
    pub on_failure: bool,
    /// Notify on delayed delivery.
    pub delay: bool,
}

/// The bytes of the NOTIFY value `never`.
pub open spec fn kw_never_b() -> Seq<u8> {
    seq![110u8, 101u8, 118u8, 101u8, 114u8]
}

/// The bytes of the NOTIFY value `success`.
pub open spec fn kw_success_b() -> Seq<u8> {
    seq![115u8, 117u8, 99u8, 99u8, 101u8, 115u8, 115u8]
}

/// The bytes of the NOTIFY value `failure`.
pub open spec fn kw_failure_b() -> Seq<u8> {
    seq![102u8, 97u8, 105u8, 108u8, 117u8, 114u8, 101u8]
}

/// The bytes of the NOTIFY value `delay`.
pub open spec fn kw_delay_b() -> Seq<u8> {
    seq![100u8, 101u8, 108u8, 97u8, 121u8]
}

/// The flags set by the listed notify items, taken together.
pub open spec fn spec_notify_flags(items: Seq<Seq<char>>) -> (bool, bool, bool) {
    (
        exists|k: int|
            0 <= k < items.len() && spec_ci_eq_bytes(
                encode_utf8(#[trigger] items[k]),
                kw_success_b(),
            ),
        exists|k: int|
            0 <= k < items.len() && spec_ci_eq_bytes(
                encode_utf8(#[trigger] items[k]),
                kw_failure_b(),
            ),
        exists|k: int|
            0 <= k < items.len() && spec_ci_eq_bytes(
                encode_utf8(#[trigger] items[k]),
                kw_delay_b(),
            ),
    )
}

/// Collect notify items into the option block: a flag is set exactly when
/// the matching item (compared case-insensitively) occurs in the list.
pub fn convert_notify_list(input: Vec<&str>) -> (r: Notify)
    ensures
        ({
            let f = spec_notify_flags(input@.map_values(|s: &str| s@));
            r.on_success == f.0 && r.on_failure == f.1 && r.delay == f.2
        }),
{
    let kw_success: [u8; 7] = [115u8, 117u8, 99u8, 99u8, 101u8, 115u8, 115u8];
    let kw_failure: [u8; 7] = [102u8, 97u8, 105u8, 108u8, 117u8, 114u8, 101u8];
    let kw_delay: [u8; 5] = [100u8, 101u8, 108u8, 97u8, 121u8];
    proof {
        assert(kw_success@ =~= kw_success_b());
        assert(kw_failure@ =~= kw_failure_b());
        assert(kw_delay@ =~= kw_delay_b());
    }
    let ghost views = input@.map_values(|s: &str| s@);
    let mut on_success = false;
    let mut on_failure = false;
    let mut delay = false;
    let mut k: usize = 0;
    while k < input.len()
        invariant
            k <= input.len(),
            kw_success@ == kw_success_b(),
            kw_failure@ == kw_failure_b(),
            kw_delay@ == kw_delay_b(),
            views == input@.map_values(|s: &str| s@),
            on_success == exists|q: int|
                0 <= q < k && spec_ci_eq_bytes(encode_utf8(#[trigger] views[q]), kw_success_b()),
            on_failure == exists|q: int|
                0 <= q < k && spec_ci_eq_bytes(encode_utf8(#[trigger] views[q]), kw_failure_b()),
            delay == exists|q: int|
                0 <= q < k && spec_ci_eq_bytes(encode_utf8(#[trigger] views[q]), kw_delay_b()),
        decreases input.len() - k,
    {
        let item = input[k];
        proof {
            assert(views[k as int] == item@);
        }
        let m_s = bytes_ci_eq(item.as_bytes(), kw_success.as_slice());
        let m_f = bytes_ci_eq(item.as_bytes(), kw_failure.as_slice());
        let m_d = bytes_ci_eq(item.as_bytes(), kw_delay.as_slice());
        proof {
            let a = encode_utf8(item@);
            if m_s && m_f {
                assert(to_lower_byte(a[0]) == to_lower_byte(kw_success_b()[0]));
                assert(to_lower_byte(a[0]) == to_lower_byte(kw_failure_b()[0]));
                assert(false);
            }
        }
        if m_s {
            on_success = true;
        }
        if m_f {
            on_failure = true;
        }
        if m_d {
            delay = true;
        }
        k = k + 1;
    }
    proof {
        let f = spec_notify_flags(views);
        assert(on_success == f.0 && on_failure == f.1 && delay == f.2);
    }
    Notify { on_success, on_failure, delay }
}

/// One notify list item at `i`: `success`, `failure` or `delay`,
/// case-insensitively, as flag contributions.
pub open spec fn spec_notify_item(s: Seq<u8>, i: int) -> Option<(int, (bool, bool, bool))> {
    if spec_ci_match(s, i, kw_success_b()) {
        Some((i + 7, (true, false, false)))
    } else if spec_ci_match(s, i, kw_failure_b()) {
        Some((i + 7, (false, true, false)))
    } else if spec_ci_match(s, i, kw_delay_b()) {
        Some((i + 5, (false, false, true)))
    } else {
        None
    }
}

/// Further notify items: a comma then an item, zero or more times, with the
/// flags combined.
pub open spec fn spec_notify_more(s: Seq<u8>, j: int) -> (int, (bool, bool, bool))
    decreases s.len() - j when 0 <= j <= s.len()
{
    if j < s.len() && s[j] == 44 {
        match spec_notify_item(s, j + 1) {
            Some((j2, f)) => if j < j2 <= s.len() {
                let (e, g) = spec_notify_more(s, j2);
                (e, (f.0 || g.0, f.1 || g.1, f.2 || g.2))
            } else {
                (j, (false, false, false))
            },
            None => (j, (false, false, false)),
        }
    } else {
        (j, (false, false, false))
    }
}

/// A NOTIFY parameter value at the start of the input: the literal `never`,
/// or a comma-joined combination of `success`, `failure` and `delay`, all
/// case-insensitive. `never` yields no flags and excludes the others.
pub open spec fn spec_dsn_notify(s: Seq<u8>) -> Option<(int, (bool, bool, bool))> {
    if spec_ci_match(s, 0, kw_never_b()) {
        Some((5, (false, false, false)))
    } else {
        match spec_notify_item(s, 0) {
            Some((j, f)) => {
                let (e, g) = spec_notify_more(s, j);
                Some((e, (f.0 || g.0, f.1 || g.1, f.2 || g.2)))
            },
            None => None,
        }
    }
}

/// Parsing `never` yields no flags, and any parse that sets a flag cannot
/// have started with `never`: the two forms are mutually exclusive.
pub proof fn lemma_dsn_notify_never_exclusive(s: Seq<u8>)
    ensures
        spec_ci_match(s, 0, kw_never_b()) ==> spec_dsn_notify(s) == Some(
            (5int, (false, false, false)),
        ),
        match spec_dsn_notify(s) {
            Some((np, f)) => (f.0 || f.1 || f.2) ==> !spec_ci_match(s, 0, kw_never_b()),
            None => true,
        },
{
}

/// Parse one notify item at `pos`.
fn notify_item(input: &[u8], pos: usize) -> (r: Option<(usize, (bool, bool, bool))>)
    requires
        pos <= input.len(),
    ensures
        match r {
            Some((np, f)) => spec_notify_item(input@, pos as int) == Some((np as int, f)) && pos
                < np <= input.len() && input@[np - 1] < 128,
            None => spec_notify_item(input@, pos as int) is None,
        },
{
    let kw_success: [u8; 7] = [115u8, 117u8, 99u8, 99u8, 101u8, 115u8, 115u8];
    let kw_failure: [u8; 7] = [102u8, 97u8, 105u8, 108u8, 117u8, 114u8, 101u8];
    let kw_delay: [u8; 5] = [100u8, 101u8, 108u8, 97u8, 121u8];
    proof {
        assert(kw_success@ =~= kw_success_b());
        assert(kw_failure@ =~= kw_failure_b());
        assert(kw_delay@ =~= kw_delay_b());
    }
    if let Some(np) = crate::util::tag_ci(input, pos, kw_success.as_slice()) {
        proof {
            assert(to_lower_byte(input@[np - 1]) == to_lower_byte(115u8));
        }
        return Some((np, (true, false, false)));
    }
    if let Some(np) = crate::util::tag_ci(input, pos, kw_failure.as_slice()) {
        proof {
            assert(to_lower_byte(input@[np - 1]) == to_lower_byte(101u8));
        }
        return Some((np, (false, true, false)));
    }
    if let Some(np) = crate::util::tag_ci(input, pos, kw_delay.as_slice()) {
        proof {
            assert(to_lower_byte(input@[np - 1]) == to_lower_byte(121u8));
        }
        return Some((np, (false, false, true)));
    }
    None
}

/// Parse a NOTIFY parameter value, yielding the remainder and the requested
/// conditions. `never` (case-insensitive) yields none and is mutually
/// exclusive with any comma-joined combination of the condition names.
pub fn dsn_notify(input: &str) -> (r: Result<(&str, Notify), ParseError>)
    ensures
        match r {
            Ok((rem, n)) => match spec_dsn_notify(input.spec_bytes()) {
                Some((np, f)) => n.on_success == f.0 && n.on_failure == f.1 && n.delay == f.2
                    && rem.spec_bytes() == input.spec_bytes().subrange(
                    np,
                    input.spec_bytes().len() as int,
                ),
                None => false,
            },
            Err(e) => e == ParseError::GrammarMismatch && spec_dsn_notify(
                input.spec_bytes(),
            ) is None,
        },
{
    let b = input.as_bytes();
    let kw_never: [u8; 5] = [110u8, 101u8, 118u8, 101u8, 114u8];
    proof {
        assert(kw_never@ =~= kw_never_b());
        vstd::utf8::encode_utf8_valid_utf8(input@);
    }
    if let Some(np) = crate::util::tag_ci(b, 0, kw_never.as_slice()) {
        proof {
            assert(to_lower_byte(b@[np - 1]) == to_lower_byte(114u8));
            assert(b@[np - 1] < 128);
            crate::util::lemma_boundary_after_ascii(b@, np - 1);
        }
        let (_, rem) = input.split_at(np);
        return Ok((rem, Notify { on_success: false, on_failure: false, delay: false }));
    }
    let (j0, f0) = match notify_item(b, 0) {
        Some(x) => x,
        None => {
            return Err(ParseError::GrammarMismatch);
        },
    };
    let mut on_success = f0.0;
    let mut on_failure = f0.1;
    let mut delay = f0.2;
    let mut j: usize = j0;
    loop
        invariant
            0 < j <= b@.len(),
            b@ == input.spec_bytes(),
            b@[j - 1] < 128,
            spec_notify_more(b@, j0 as int).0 == spec_notify_more(b@, j as int).0,
            ({
                let (e, g) = spec_notify_more(b@, j0 as int);
                let (e2, g2) = spec_notify_more(b@, j as int);
                (f0.0 || g.0) == (on_success || g2.0) && (f0.1 || g.1) == (on_failure || g2.1)
                    && (f0.2 || g.2) == (delay || g2.2)
            }),
        ensures
            0 < j <= b@.len(),
            b@[j - 1] < 128,
            spec_notify_more(b@, j0 as int).0 == j as int,
            ({
                let (e, g) = spec_notify_more(b@, j0 as int);
                (f0.0 || g.0) == on_success && (f0.1 || g.1) == on_failure && (f0.2 || g.2)
                    == delay
            }),
        decreases b@.len() - j,
    {
        if j < b.len() && b[j] == 44 {
            match notify_item(b, j + 1) {
                Some((j2, f)) => {
                    proof {
                        assert(spec_notify_more(b@, j as int).0 == spec_notify_more(
                            b@,
                            j2 as int,
                        ).0);
                        let g = spec_notify_more(b@, j2 as int).1;
                        assert(spec_notify_more(b@, j as int).1 == (
                            f.0 || g.0,
                            f.1 || g.1,
                            f.2 || g.2,
                        ));
                    }
                    on_success = on_success || f.0;
                    on_failure = on_failure || f.1;
                    delay = delay || f.2;
                    j = j2;
                },
                None => {
                    break ;
                },
            }
        } else {
            break ;
        }
    }
    proof {
        assert(b@[j - 1] < 128);
        crate::util::lemma_boundary_after_ascii(b@, j - 1);
    }
    let (_, rem) = input.split_at(j);
    Ok((rem, Notify { on_success, on_failure, delay }))
}


} // verus!
